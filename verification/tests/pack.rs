use soundbox::db::PackEntry;
use soundbox::pack::{
    apply_entry, check_format, decode_pack_bytes, encode_pack_bytes, export, plan_import, preview,
    Fingerprint, Mode, Pack, PackError, FORMAT,
};

fn entry(key: &str, name: &str, size: u64, tags: &[&str]) -> PackEntry {
    PackEntry {
        content_key: key.into(),
        filename: name.into(),
        size,
        tags: tags.iter().map(|t| t.to_string()).collect(),
        favorite: false,
    }
}

fn fp(key: &str, name: &str, size: u64) -> Fingerprint {
    (key.into(), name.into(), size)
}

#[test]
fn import_matches_by_content_hash_across_different_names() {
    let pack = export("His", vec![], vec![entry("shared", "his_name.wav", 100, &["whoosh"])], 0);
    let mine = vec![fp("shared", "my_name.wav", 100)];
    let plan = plan_import(&mine, &pack, Mode::Merge, false);
    let r = &plan.applied;
    assert_eq!((r.exact, r.fuzzy, r.missing), (1, 0, 0));
    assert_eq!(plan.applies, vec![("shared".to_string(), 0)]);
}

#[test]
fn fuzzy_matches_are_opt_in() {
    let pack = export("His", vec![], vec![entry("theirs", "shared.wav", 100, &["boom"])], 0);
    let mine = vec![fp("mine", "Shared.WAV", 100)];
    let p = preview(&mine, &pack);
    assert_eq!((p.exact, p.fuzzy), (0, 1));

    let skipped = plan_import(&mine, &pack, Mode::Merge, false);
    assert_eq!(skipped.applied.missing, 1, "fuzzy matches must not apply unless asked");
    assert!(skipped.applies.is_empty());

    let applied = plan_import(&mine, &pack, Mode::Merge, true);
    assert_eq!(applied.applied.fuzzy, 1);
    assert_eq!(applied.applies, vec![("mine".to_string(), 0)]);
}

#[test]
fn unmatched_entries_are_reported_not_invented() {
    let pack = export("His", vec![], vec![entry("gone", "absent.wav", 5, &["x"])], 0);
    let mine = vec![fp("here", "present.wav", 9)];
    let r = plan_import(&mine, &pack, Mode::Merge, true);
    assert_eq!(r.applied.missing, 1);
    assert!(r.applies.is_empty());
    let p = preview(&mine, &pack);
    assert_eq!(p.sample_missing, vec!["absent.wav".to_string()]);
}

#[test]
fn later_files_shadow_earlier_ones_in_fuzzy_matching() {
    let pack = export("His", vec![], vec![entry("theirs", "a.wav", 1, &["t"])], 0);
    let mine = vec![fp("first", "a.wav", 1), fp("second", "A.wav", 1)];
    let plan = plan_import(&mine, &pack, Mode::Overwrite, true);
    assert_eq!(plan.applies, vec![("second".to_string(), 0)]);
    assert_eq!(plan.mode, Mode::Overwrite);
}

#[test]
fn only_coloured_tags_are_set() {
    let pack = export(
        "His",
        vec![("a".into(), Some("#fff".into())), ("b".into(), None)],
        vec![],
        7,
    );
    assert_eq!(pack.format, FORMAT);
    assert_eq!(pack.exported_at, 7);
    assert_eq!(pack.tags.len(), 2);
    let plan = plan_import(&vec![], &pack, Mode::Merge, false);
    assert_eq!(plan.colors, vec![("a".to_string(), "#fff".to_string())]);
}

#[test]
fn preview_samples_at_most_ten_missing() {
    let entries: Vec<PackEntry> = (0..15).map(|i| entry(&format!("k{i}"), &format!("f{i}.wav"), i, &["t"])).collect();
    let pack = export("x", vec![], entries, 0);
    let p = preview(&vec![], &pack);
    assert_eq!((p.total, p.missing), (15, 15));
    assert_eq!(p.sample_missing.len(), 10);
    assert_eq!(p.sample_missing[9], "f9.wav");
}

#[test]
fn pack_bytes_round_trip() {
    let json = br#"{"format":1,"profile":"x","exported_at":0,"entries":[]}"#.to_vec();
    let written = encode_pack_bytes(&json).unwrap();
    assert_eq!(&written[..2], &[0x1f, 0x8b]);
    assert_ne!(written, json);
    assert_eq!(decode_pack_bytes(written).unwrap(), json);
    assert_eq!(decode_pack_bytes(json.clone()).unwrap(), json, "plain JSON is accepted");
    assert_eq!(decode_pack_bytes(vec![0x1f, 0x8b, 1, 2]), Err(PackError::Decompress));
}

#[test]
fn a_newer_format_is_refused() {
    let mut pack: Pack = export("x", vec![], vec![], 0);
    pack.format = 99;
    assert!(matches!(check_format(pack), Err(PackError::NewerFormat(99))));
    assert_eq!(
        PackError::NewerFormat(99).message(),
        "this pack was made by a newer version of SoundBox (format 99)"
    );
    assert!(check_format(export("x", vec![], vec![], 0)).is_ok());
}

/// Applies every planned entry to one local sound's (tags, favourite).
fn apply_all(pack: &Pack, mine: &[Fingerprint], local: (Vec<String>, bool), mode: Mode) -> (Vec<String>, bool) {
    let plan = plan_import(&mine.to_vec(), pack, mode, false);
    let mut state = local;
    for (_, i) in &plan.applies {
        state = apply_entry(&state.0, state.1, &pack.entries[*i], plan.mode);
    }
    state.0.sort();
    state
}

#[test]
fn merge_keeps_local_tags_and_favorites() {
    let pack = export("His", vec![], vec![entry("k", "a.wav", 1, &["theirs"])], 0);
    let mine = [fp("k", "a.wav", 1)];
    let (tags, fav) = apply_all(&pack, &mine, (vec!["mine".to_string()], true), Mode::Merge);
    assert_eq!(tags, vec!["mine", "theirs"], "merge is a union");
    assert!(fav, "merge must not clear a local favourite");
}

#[test]
fn overwrite_replaces_local_metadata() {
    let pack = export("His", vec![], vec![entry("k", "a.wav", 1, &["theirs"])], 0);
    let mine = [fp("k", "a.wav", 1)];
    let (tags, fav) = apply_all(&pack, &mine, (vec!["mine".to_string()], true), Mode::Overwrite);
    assert_eq!(tags, vec!["theirs"]);
    assert!(!fav, "the incoming entry was not a favourite");
}

#[test]
fn applied_tags_are_normalised_and_listed_once() {
    let mut e = entry("k", "a.wav", 1, &["  Boom ", "boom", "", "  ", "Metal"]);
    e.favorite = true;
    let (mut tags, fav) = apply_entry(&vec!["metal".to_string(), "old".to_string()], false, &e, Mode::Merge);
    tags.sort();
    assert_eq!(tags, vec!["boom", "metal", "old"]);
    assert!(fav);
    let (mut again, fav2) = apply_entry(&tags, fav, &e, Mode::Merge);
    again.sort();
    assert_eq!((again, fav2), (tags, true), "applying twice changes nothing");
}

#[test]
fn export_only_includes_sounds_with_metadata() {
    let mut fav = entry("k2", "b.wav", 20, &[]);
    fav.favorite = true;
    let entries = vec![entry("k1", "a.wav", 10, &["whoosh"]), fav, entry("k3", "c.wav", 30, &[])];
    let pack = export("Test", vec![], entries, 0);
    let keys: Vec<&str> = pack.entries.iter().map(|e| e.content_key.as_str()).collect();
    assert_eq!(keys.len(), 2, "the untagged sound should not be exported");
    assert!(keys.contains(&"k1") && keys.contains(&"k2"));
}

#[test]
fn preview_and_import_agree() {
    let entries = vec![
        entry("k1", "a.wav", 1, &["t"]),
        entry("zz", "B.wav", 2, &["t"]),
        entry("gone", "c.wav", 3, &["t"]),
    ];
    let pack = export("x", vec![], entries, 0);
    let mine = vec![fp("k1", "x.wav", 1), fp("k2", "b.wav", 2)];
    let p = preview(&mine, &pack);
    assert_eq!((p.exact, p.fuzzy, p.missing, p.total), (1, 1, 1, 3));
    let with = plan_import(&mine, &pack, Mode::Merge, true).applied;
    assert_eq!((with.exact, with.fuzzy, with.missing), (p.exact, p.fuzzy, p.missing));
    let without = plan_import(&mine, &pack, Mode::Merge, false).applied;
    assert_eq!((without.exact, without.fuzzy, without.missing), (p.exact, 0, p.fuzzy + p.missing));
}
