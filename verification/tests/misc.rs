use soundbox::audio::{clamp_region, duration_ms, frames};
use soundbox::db::{folder, normalise_tag, now};
use soundbox::ident::{content_key, reads_tail, CHUNK};
use soundbox::scan::{is_audio_ext, should_skip, FileOutcome, ScanStats};
use soundbox::similar::{candidates, position, Entry};

fn entry(id: i64, key: &str) -> Entry {
    Entry { id, content_key: key.into(), duration_ms: 1000 }
}

#[test]
fn similar_candidates_exclude_self_and_aliases() {
    let es = vec![entry(1, "same"), entry(2, "same"), entry(3, "other"), entry(4, "x")];
    let t = position(&es, 1).unwrap();
    assert_eq!(candidates(&es, t), vec![2, 3]);
    assert_eq!(position(&es, 999), None);
    assert_eq!(position(&es, 3), Some(2));
}

#[test]
fn audio_extensions_ignore_case() {
    for e in ["wav", "WAV", "Flac", "mp3", "opus", "m4v", "MOV"] {
        assert!(is_audio_ext(e), "{e}");
    }
    for e in ["txt", "", "wave", "mp"] {
        assert!(!is_audio_ext(e), "{e}");
    }
}

#[test]
fn unchanged_files_are_skipped_only_at_this_cache_version() {
    assert!(should_skip(Some((10, 5, 1)), 10, 5));
    assert!(!should_skip(Some((10, 5, 0)), 10, 5));
    assert!(!should_skip(Some((11, 5, 1)), 10, 5));
    assert!(!should_skip(None, 10, 5));
}

#[test]
fn scan_stats_tally() {
    let mut s = ScanStats::default();
    s.record(FileOutcome::Skipped);
    s.record(FileOutcome::Analysed);
    s.record(FileOutcome::Undecodable);
    s.record(FileOutcome::Failed("p".into(), "why".into()));
    assert_eq!((s.skipped, s.analysed, s.failed), (1, 1, 2));
    assert_eq!(s.errors, vec![("p".to_string(), "why".to_string())]);
}

#[test]
fn content_keys_hash_size_head_and_tail() {
    let k = content_key(3, b"abc", b"");
    let mut data = 3u64.to_le_bytes().to_vec();
    data.extend_from_slice(b"abc");
    assert_eq!(k, format!("b3:{}", blake3::hash(&data).to_hex()));
    assert_ne!(content_key(3, b"abc", b"z"), k);
    assert!(!reads_tail(2 * CHUNK as u64));
    assert!(reads_tail(2 * CHUNK as u64 + 1));
}

#[test]
fn folders_and_tags() {
    assert_eq!(folder("SFX/Farts/wet.wav"), "SFX/Farts");
    assert_eq!(folder("a\\b.wav"), "a");
    assert_eq!(folder("top.wav"), "");
    assert_eq!(normalise_tag("  Whoosh "), Some("whoosh".to_string()));
    assert_eq!(normalise_tag("   "), None);
    assert!(now() > 1_600_000_000);
}

#[test]
fn frame_arithmetic() {
    assert_eq!(frames(10, 2), 5);
    assert_eq!(frames(10, 0), 0);
    assert_eq!(duration_ms(48000, 48000), 1000);
    assert_eq!(duration_ms(5, 0), 0);
    assert_eq!(clamp_region(5, 2, 10), (5, 5));
    assert_eq!(clamp_region(3, 50, 10), (3, 10));
    assert_eq!(clamp_region(20, 50, 10), (10, 10));
}

fn six() -> Vec<Entry> {
    vec![entry(1, "a"), entry(2, "b"), entry(3, "c"), entry(4, "d"), entry(5, "e"), entry(6, "f")]
}

#[test]
fn excludes_self() {
    let es = six();
    let t = position(&es, 1).unwrap();
    assert!(candidates(&es, t).iter().all(|&i| es[i].id != 1));
    assert_eq!(candidates(&es, t), vec![1, 2, 3, 4, 5]);
}

#[test]
fn excludes_aliases_of_the_same_recording() {
    let es = vec![entry(1, "same"), entry(2, "same"), entry(3, "other")];
    let t = position(&es, 1).unwrap();
    let c = candidates(&es, t);
    assert_eq!(c.len(), 1);
    assert_eq!(es[c[0]].id, 3);
}

#[test]
fn unknown_id_is_empty_not_a_panic() {
    assert_eq!(position(&six(), 999), None);
}
