use soundbox::paths::{extension_of_path, file_name_of, file_stem_of, join_path};

#[test]
fn join_follows_pathbuf() {
    assert_eq!(join_path("/a", "b"), "/a/b");
    assert_eq!(join_path("/a/", "b"), "/a/b");
    assert_eq!(join_path("", "b"), "b");
    assert_eq!(join_path("/a", "/b"), "/b");
}

#[test]
fn names_stems_and_extensions() {
    assert_eq!(file_name_of("/x/y.tar.gz").as_deref(), Some("y.tar.gz"));
    assert_eq!(file_name_of("/x/y/").as_deref(), Some("y"));
    assert_eq!(file_name_of("/x/y/.").as_deref(), Some("y"));
    assert_eq!(file_name_of("/"), None);
    assert_eq!(file_name_of("a/.."), None);
    assert_eq!(file_stem_of("/x/y.tar.gz").as_deref(), Some("y.tar"));
    assert_eq!(file_stem_of("/x/.hidden").as_deref(), Some(".hidden"));
    assert_eq!(extension_of_path("/x/y.tar.gz").as_deref(), Some("gz"));
    assert_eq!(extension_of_path("/x/.hidden"), None);
    assert_eq!(extension_of_path("/x/noext"), None);
    for p in ["/x/y.tar.gz", "/x/y/", "a/b/c.wav", "/x/.hidden", "rel", "a//b"] {
        let std_path = std::path::Path::new(p);
        assert_eq!(
            file_name_of(p).as_deref(),
            std_path.file_name().and_then(|s| s.to_str()),
            "{p}"
        );
        assert_eq!(
            file_stem_of(p).as_deref(),
            std_path.file_stem().and_then(|s| s.to_str()),
            "{p}"
        );
        assert_eq!(
            extension_of_path(p).as_deref(),
            std_path.extension().and_then(|s| s.to_str()),
            "{p}"
        );
    }
}
