use soundbox::search::{rank, score_hit, Hit, Index, Item, Sort};

fn item(id: i64, folder: &str, filename: &str) -> Item {
    Item {
        id,
        filename: filename.into(),
        folder: folder.into(),
        duration_ms: 1000,
        channels: 2,
        sample_rate: 48000,
        ext: "wav".into(),
        content_key: format!("b3:{id}"),
        added_at: id,
        mtime: id,
        last_played: 0,
    }
}

fn index() -> Index {
    Index::new(vec![
        item(1, "SFX/Farts", "wet_one.wav"),
        item(2, "SFX/Farts", "dry_two.wav"),
        item(3, "SFX/Impacts/Metal", "hit_03.wav"),
        item(4, "Music", "fatboy_slim.mp3"),
    ])
}

#[test]
fn empty_query_returns_everything() {
    assert_eq!(index().search("", 100, Sort::Relevance, false).len(), 4);
}

#[test]
fn typo_tolerant_on_filenames() {
    let hits = index().search("fatby", 10, Sort::Relevance, false);
    assert_eq!(hits[0].id, 4, "fuzzy match should survive a dropped letter");
}

#[test]
fn folder_match_pulls_in_contents() {
    let hits = index().search("fart", 10, Sort::Relevance, false);
    let ids: Vec<i64> = hits.iter().map(|h| h.id).collect();
    assert!(ids.contains(&1) && ids.contains(&2), "both files in SFX/Farts, got {ids:?}");
    assert!(hits.iter().filter(|h| h.id == 1 || h.id == 2).all(|h| h.via_folder));
}

#[test]
fn filename_outranks_folder() {
    let mut ix = Index::new(vec![
        item(1, "Music", "impact.wav"),
        item(2, "SFX/Impacts/Metal", "clang.wav"),
    ]);
    let hits = ix.search("impact", 10, Sort::Relevance, false);
    assert_eq!(hits[0].id, 1, "direct filename hit should win");
}

#[test]
fn highlight_indices_point_into_the_filename() {
    let hits = index().search("hit", 10, Sort::Relevance, false);
    let h = hits.iter().find(|h| h.id == 3).expect("hit_03.wav should match");
    assert_eq!(h.indices, vec![0, 1, 2]);
}

fn ids(hits: &[Hit]) -> Vec<i64> {
    hits.iter().map(|h| h.id).collect()
}

#[test]
fn empty_query_sorts_by_name_and_honours_limit() {
    let mut ix = index();
    assert_eq!(ids(&ix.search("  ", 100, Sort::Relevance, false)), vec![2, 4, 3, 1]);
    assert_eq!(ids(&ix.search("", 2, Sort::Relevance, true)), vec![1, 3]);
    assert_eq!(ids(&ix.search("", 100, Sort::Added, true)), vec![4, 3, 2, 1]);
    assert_eq!(ids(&ix.search("", 100, Sort::Folder, false)), vec![4, 2, 1, 3]);
}

#[test]
fn recent_puts_never_played_last() {
    let mut a = item(1, "x", "a.wav");
    a.last_played = 5;
    let b = item(2, "x", "b.wav");
    let mut c = item(3, "x", "c.wav");
    c.last_played = 9;
    let items = vec![a, b, c];
    let hits: Vec<Hit> =
        items.iter().map(|i| Hit { id: i.id, score: 0, indices: vec![], via_folder: false }).collect();
    assert_eq!(ids(&rank(&items, hits, Sort::Recent, Sort::Name, false, 10)), vec![3, 1, 2]);
}

#[test]
fn relevance_is_by_score_then_id_and_ignores_desc() {
    let items = vec![item(1, "x", "a"), item(2, "x", "b"), item(3, "x", "c")];
    let hits = vec![
        Hit { id: 3, score: 10, indices: vec![], via_folder: false },
        Hit { id: 1, score: 5, indices: vec![], via_folder: false },
        Hit { id: 2, score: 10, indices: vec![], via_folder: false },
    ];
    assert_eq!(ids(&rank(&items, hits, Sort::Relevance, Sort::Relevance, true, 10)), vec![2, 3, 1]);
}

#[test]
fn hits_combine_name_and_folder_scores() {
    let h = score_hit(7, Some(10), &vec![4, 1, 4, 2], Some(6)).unwrap();
    assert_eq!((h.id, h.score, h.via_folder), (7, 36, false));
    assert_eq!(h.indices, vec![1, 2, 4]);
    assert_eq!(score_hit(7, Some(10), &vec![], None).unwrap().score, 30);
    let f = score_hit(7, None, &vec![], Some(40)).unwrap();
    assert_eq!((f.score, f.via_folder), (40, true));
    assert!(score_hit(7, None, &vec![], Some(39)).is_none());
    assert!(score_hit(7, None, &vec![], None).is_none());
}

#[test]
fn get_finds_by_id() {
    let ix = index();
    assert_eq!(ix.get(3).map(|i| i.filename.as_str()), Some("hit_03.wav"));
    assert!(ix.get(99).is_none());
    assert_eq!(ix.len(), 4);
    assert!(!ix.is_empty());
    assert_eq!(ix.items().len(), 4);
}

#[test]
fn descending_is_ascending_reversed() {
    let mut ix = index();
    for sort in [Sort::Name, Sort::Added, Sort::Folder, Sort::Duration] {
        let mut asc = ids(&ix.search("", 100, sort, false));
        let desc = ids(&ix.search("", 100, sort, true));
        asc.reverse();
        assert_eq!(desc, asc);
    }
    let a = ids(&ix.search("wav", 100, Sort::Relevance, false));
    let d = ids(&ix.search("wav", 100, Sort::Relevance, true));
    assert_eq!(a, d);
}
