use soundbox::rename::{
    candidate_path, next_probe, sanitise, undo_last, validate, Invalid, Probe, RenameLogEntry,
    UndoError, MAX_STEM,
};

#[test]
fn rejects_windows_illegal_characters() {
    for bad in ["a/b", "a\\b", "a:b", "a*b", "a?b", "a\"b", "a<b", "a>b", "a|b"] {
        assert!(validate(bad).is_err(), "{bad:?} should be rejected");
    }
}

#[test]
fn rejects_reserved_device_names_regardless_of_case_or_extension() {
    for bad in ["CON", "con", "NUL", "com1", "LPT9", "con.backup"] {
        assert_eq!(validate(bad), Err(Invalid::Reserved), "{bad:?}");
    }
    assert!(validate("console").is_ok(), "only exact device names are reserved");
}

#[test]
fn rejects_empty_and_overlong() {
    assert_eq!(validate("   "), Err(Invalid::Empty));
    assert_eq!(validate(&"a".repeat(MAX_STEM + 1)), Err(Invalid::TooLong));
    assert!(validate(&"a".repeat(MAX_STEM)).is_ok());
}

#[test]
fn accepts_ordinary_names() {
    for ok in ["fart", "big fart 2", "impact_metal_03", "café_ambience", "a.b.c"] {
        assert!(validate(ok).is_ok(), "{ok:?} should be allowed");
    }
}

#[test]
fn sanitise_strips_trailing_dots_and_spaces() {
    // Windows silently drops these, so the file would not match the name.
    assert_eq!(sanitise("name.  "), "name");
    assert_eq!(sanitise("a/b:c"), "a_b_c");
}

#[test]
fn illegal_characters_are_listed_once_per_run() {
    assert_eq!(validate("a//b:c"), Err(Invalid::IllegalChars("/ :".to_string())));
    assert_eq!(
        validate("a\tb\nc"),
        Err(Invalid::IllegalChars("control characters".to_string()))
    );
    assert_eq!(validate("a/b/c"), Err(Invalid::IllegalChars("/".to_string())));
}

#[test]
fn validation_trims_before_checking() {
    assert!(validate("  fine  ").is_ok());
    assert_eq!(validate(" nul "), Err(Invalid::Reserved));
    assert_eq!(validate(""), Err(Invalid::Empty));
    assert_eq!(validate("com0"), Ok(()));
    assert_eq!(validate("AUX.wav"), Err(Invalid::Reserved));
}

#[test]
fn invalid_messages_name_the_problem() {
    assert_eq!(Invalid::Empty.message(), "name cannot be empty");
    assert_eq!(Invalid::TooLong.message(), "name is longer than 120 characters");
    assert_eq!(Invalid::Reserved.message(), "that name is reserved by Windows");
    assert_eq!(Invalid::IllegalChars("/ :".into()).message(), "name cannot contain / :");
}

#[test]
fn sanitise_replaces_and_shortens() {
    assert_eq!(sanitise("  x\ty  "), "x_y");
    assert_eq!(sanitise(&"b".repeat(200)).chars().count(), MAX_STEM);
    assert_eq!(sanitise("..."), "");
    assert_eq!(sanitise("a?"), "a_");
}

#[test]
fn candidates_keep_the_extension_and_count_up() {
    assert_eq!(candidate_path("/lib/sub", " new name ", "wav", 0), "/lib/sub/new name.wav");
    assert_eq!(candidate_path("/lib/sub", "keep", "wav", 2), "/lib/sub/keep (2).wav");
    assert_eq!(candidate_path("/lib/sub/", "keep", "", 12), "/lib/sub/keep (12)");
}

#[test]
fn probing_never_overwrites() {
    assert_eq!(next_probe(0, false, false, true), Probe::RenameTo(0));
    assert_eq!(next_probe(0, false, true, false), Probe::AlreadyExists);
    assert_eq!(next_probe(0, false, true, true), Probe::Check(2));
    assert_eq!(next_probe(2, false, true, true), Probe::Check(3));
    assert_eq!(next_probe(7, false, false, true), Probe::RenameTo(7));
    assert_eq!(next_probe(999, false, true, true), Probe::TooMany);
    assert_eq!(next_probe(0, true, true, false), Probe::Unchanged, "renaming to its own name does nothing");
    assert_eq!(next_probe(2, true, true, true), Probe::Check(3));
}

#[test]
fn undo_plans_the_way_back() {
    assert!(matches!(undo_last(None), Ok(None)));
    let plan = undo_last(Some(RenameLogEntry {
        log_id: 7,
        file_id: 3,
        old_rel: "sub/first_take.wav".into(),
        new_rel: "sub/renamed.wav".into(),
        root: "/lib".into(),
    }))
    .unwrap()
    .unwrap();
    assert_eq!(plan.old_stem, "first_take");
    assert_eq!(plan.current, "/lib/sub/renamed.wav");
    assert_eq!((plan.log_id, plan.file_id), (7, 3));
    let bad = undo_last(Some(RenameLogEntry {
        log_id: 1,
        file_id: 1,
        old_rel: "..".into(),
        new_rel: "x.wav".into(),
        root: "/".into(),
    }));
    assert!(matches!(bad, Err(UndoError::NoPreviousName)));
}

#[test]
fn sanitised_names_pass_the_character_and_length_rules() {
    let long = format!("a<b>c:{}", "x".repeat(300));
    for s in [long.as_str(), "bad|name?.. ", "\u{1}\u{2}tab\there", "  spaced   . "] {
        let clean = sanitise(s);
        match validate(&clean) {
            Ok(()) => {}
            Err(e) => assert!(matches!(e, Invalid::Empty | Invalid::Reserved), "{s:?} gave {e:?}"),
        }
    }
    assert_eq!(validate(&sanitise("CON")), Err(Invalid::Reserved));
    assert_eq!(validate(&sanitise("<>")), Ok(()));
}

#[test]
fn sanitise_never_leaves_a_trailing_space_after_the_cut() {
    let stem = format!("{} b", "a".repeat(119));
    assert_eq!(sanitise(&stem), "a".repeat(119));
    let dots = format!("{}..x", "a".repeat(118));
    assert_eq!(sanitise(&dots), "a".repeat(118));
}
