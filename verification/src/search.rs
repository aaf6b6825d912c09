//! Fuzzy search over the library: filenames and folders are matched with
//! `nucleo-matcher`, combined into one score, and ranked by the chosen order.

use vstd::prelude::*;
use vstd::string::*;
use crate::order::{before, lemma_text_lt_asymmetric, lemma_text_lt_irreflexive, text_lt, Key, KeyView, keys_view, lemma_sorted_order_unique, sort_order, sorted_order};
use crate::text::{chars_of, first_index, lemma_first_index, lowercase, to_lower, trim, trimmed};

verus! {

/// Filename hits outrank folder hits; a folder name is weaker evidence.
pub const W_NAME: u32 = 3;

pub const W_FOLDER: u32 = 1;

/// A folder must match this well before its whole contents are pulled in.
pub const FOLDER_EXPAND_MIN: u32 = 40;

#[derive(Clone)]
pub struct Item {
    pub id: i64,
    pub filename: String,
    pub folder: String,
    pub duration_ms: u64,
    pub channels: usize,
    pub sample_rate: u32,
    pub ext: String,
    pub content_key: String,
    pub added_at: i64,
    pub mtime: i64,
    pub last_played: i64,
}

#[derive(Debug)]
pub struct Hit {
    pub id: i64,
    pub score: u32,
    /// Character offsets in the filename, for highlighting.
    pub indices: Vec<u32>,
    /// True when pulled in by a folder match rather than its own name.
    pub via_folder: bool,
}

pub struct HitView {
    pub id: i64,
    pub score: u32,
    pub indices: Seq<u32>,
    pub via_folder: bool,
}

impl View for Hit {
    type V = HitView;

    open spec fn view(&self) -> HitView {
        HitView { id: self.id, score: self.score, indices: self.indices@, via_folder: self.via_folder }
    }
}

#[derive(Debug, Clone, Copy, PartialEq, Eq, Structural)]
pub enum Sort {
    Relevance,
    Name,
    Added,
    Modified,
    Recent,
    Duration,
    Folder,
}

#[verifier::external_type_specification]
#[verifier::external_body]
pub struct ExMatcher(nucleo_matcher::Matcher);

/// A `nucleo-matcher` matcher configured for paths; the only kind of
/// matcher the library makes.
struct PathMatcher {
    m: nucleo_matcher::Matcher,
}

/// `Matcher::new(Config::DEFAULT.match_paths())`. Nothing is claimed of it.
#[verifier::external_body]
fn path_matcher() -> PathMatcher {
    PathMatcher { m: nucleo_matcher::Matcher::new(nucleo_matcher::Config::DEFAULT.match_paths()) }
}

/// No backslash: the path configuration treats a backslash as a delimiter on
/// Windows only, so a score is the same on every platform when neither the
/// query nor the text holds one.
pub open spec fn portable(s: Seq<char>) -> bool {
    !s.contains('\\')
}

/// The score `Pattern::score` gives `text` for the pattern parsed from
/// `query` (case ignored, smart normalisation) with the path configuration
/// built off Windows, whose only delimiter is `/`.
pub uninterp spec fn path_score(query: Seq<char>, text: Seq<char>) -> Option<u32>;

/// The same score with the path configuration built on Windows, whose
/// delimiters are `/` and a backslash.
pub uninterp spec fn windows_path_score(query: Seq<char>, text: Seq<char>) -> Option<u32>;

/// What `Pattern::indices` gives for the same pattern and text, off Windows:
/// the score and the matched character offsets, in the order the matcher
/// reports them.
pub uninterp spec fn path_indices(query: Seq<char>, text: Seq<char>) -> (Option<u32>, Seq<u32>);

/// What `Pattern::indices` gives with the path configuration built on Windows.
pub uninterp spec fn windows_path_indices(query: Seq<char>, text: Seq<char>) -> (Option<u32>, Seq<u32>);

/// `Pattern::score` of `query`, parsed by `Pattern::parse` ignoring case with
/// smart normalisation, against `text`. `match_paths` picks one of two
/// delimiter sets by the platform the crate is built for, so the claim is
/// that the result is the score under one of them; when neither string holds
/// a backslash the two agree, and the result is `path_score(query, text)`.
#[verifier::external_body]
fn fuzzy_score(query: &str, text: &str, matcher: &mut PathMatcher) -> (r: Option<u32>)
    ensures
        r == path_score(query@, text@) || r == windows_path_score(query@, text@),
        portable(query@) && portable(text@) ==> r == path_score(query@, text@),
{
    let pat = nucleo_matcher::pattern::Pattern::parse(
        query,
        nucleo_matcher::pattern::CaseMatching::Ignore,
        nucleo_matcher::pattern::Normalization::Smart,
    );
    let mut buf = Vec::new();
    pat.score(nucleo_matcher::Utf32Str::new(text, &mut buf), &mut matcher.m)
}

/// `Pattern::indices` of `query` (parsed as for [`fuzzy_score`]) against
/// `text`: the score and the offsets it appended to an empty list. Claims,
/// for the reason given at [`fuzzy_score`]: the pair is what one of the two
/// path configurations gives, and `path_indices(query, text)` when neither
/// string holds a backslash.
#[verifier::external_body]
fn fuzzy_indices(query: &str, text: &str, matcher: &mut PathMatcher) -> (r: (Option<u32>, Vec<u32>))
    ensures
        (r.0, r.1@) == path_indices(query@, text@) || (r.0, r.1@) == windows_path_indices(query@, text@),
        portable(query@) && portable(text@) ==> (r.0, r.1@) == path_indices(query@, text@),
{
    let pat = nucleo_matcher::pattern::Pattern::parse(
        query,
        nucleo_matcher::pattern::CaseMatching::Ignore,
        nucleo_matcher::pattern::Normalization::Smart,
    );
    let mut buf = Vec::new();
    let mut idx = Vec::new();
    let s = pat.indices(nucleo_matcher::Utf32Str::new(text, &mut buf), &mut matcher.m, &mut idx);
    (s, idx)
}

/// `x` added to a strictly increasing sequence, unless already there.
pub open spec fn insert_unique(t: Seq<u32>, x: u32) -> Seq<u32>
    decreases t.len(),
{
    if t.len() == 0 {
        seq![x]
    } else if x < t[0] {
        seq![x] + t
    } else if x == t[0] {
        t
    } else {
        seq![t[0]] + insert_unique(t.drop_first(), x)
    }
}

/// The elements of `s`, increasing, each once: `sort_unstable` then `dedup`.
pub open spec fn sort_dedup(s: Seq<u32>) -> Seq<u32>
    decreases s.len(),
{
    if s.len() == 0 {
        s
    } else {
        insert_unique(sort_dedup(s.drop_last()), s.last())
    }
}

proof fn lemma_insert_unique_split(t: Seq<u32>, x: u32, p: int)
    requires
        0 <= p <= t.len(),
        forall|k: int| 0 <= k < p ==> #[trigger] t[k] < x,
    ensures
        insert_unique(t, x) == t.take(p) + insert_unique(t.skip(p), x),
    decreases p,
{
    if p == 0 {
        assert(t.skip(0) =~= t);
        assert(t.take(0) + insert_unique(t, x) =~= insert_unique(t, x));
    } else {
        let u = t.drop_first();
        assert forall|k: int| 0 <= k < p - 1 implies #[trigger] u[k] < x by {
            assert(u[k] == t[k + 1]);
        }
        lemma_insert_unique_split(u, x, p - 1);
        assert(u.skip(p - 1) =~= t.skip(p));
        assert(t.take(p) =~= seq![t[0]] + u.take(p - 1));
        assert(seq![t[0]] + (u.take(p - 1) + insert_unique(u.skip(p - 1), x)) =~= t.take(p) + insert_unique(t.skip(p), x));
    }
}

/// Sorts and deduplicates match offsets.
fn sort_dedup_exec(s: &Vec<u32>) -> (r: Vec<u32>)
    ensures
        r@ == sort_dedup(s@),
{
    let mut r: Vec<u32> = Vec::new();
    let mut i: usize = 0;
    assert(s@.take(0) =~= Seq::<u32>::empty());
    while i < s.len()
        invariant
            i <= s@.len(),
            r@ == sort_dedup(s@.take(i as int)),
        decreases s@.len() - i,
    {
        let x = s[i];
        assert(s@.take(i + 1).drop_last() =~= s@.take(i as int));
        let mut p: usize = 0;
        while p < r.len() && r[p] < x
            invariant
                p <= r@.len(),
                forall|k: int| 0 <= k < p ==> #[trigger] r@[k] < x,
            decreases r@.len() - p,
        {
            p += 1;
        }
        proof {
            lemma_insert_unique_split(r@, x, p as int);
        }
        let ghost t = r@;
        if p < r.len() && r[p] == x {
            assert(t.skip(p as int)[0] == x);
            assert(t.take(p as int) + t.skip(p as int) =~= t);
        } else {
            r.insert(p, x);
            proof {
                if (p as int) < t.len() {
                    assert(t.skip(p as int)[0] == t[p as int]);
                }
            }
            assert(r@ =~= t.take(p as int) + insert_unique(t.skip(p as int), x));
        }
        i += 1;
    }
    assert(s@.take(s@.len() as int) =~= s@);
    r
}

/// The hit an item makes from its name match (score and offsets) and its
/// folder's score: name and folder combined when the name matches, the
/// folder alone when it matches well enough, nothing otherwise. Scores wrap
/// at 2^32, as unchecked `u32` arithmetic does in a release build.
pub open spec fn hit_of(id: i64, name: Option<u32>, offsets: Seq<u32>, folder: Option<u32>) -> Option<HitView> {
    let idx = sort_dedup(offsets);
    match (name, folder) {
        (Some(n), Some(f)) => Some(
            HitView { id, score: ((n * W_NAME + f * W_FOLDER) % 0x1_0000_0000) as u32, indices: idx, via_folder: false },
        ),
        (Some(n), None) => Some(
            HitView { id, score: ((n * W_NAME) % 0x1_0000_0000) as u32, indices: idx, via_folder: false },
        ),
        (None, Some(f)) => if f >= FOLDER_EXPAND_MIN {
            Some(HitView { id, score: f, indices: idx, via_folder: true })
        } else {
            None
        },
        (None, None) => None,
    }
}

/// The hit an item makes, given what matching its filename and its folder gave.
pub fn score_hit(id: i64, name: Option<u32>, offsets: &Vec<u32>, folder: Option<u32>) -> (r: Option<Hit>)
    ensures
        match r {
            Some(h) => hit_of(id, name, offsets@, folder) == Some(h@),
            None => hit_of(id, name, offsets@, folder) is None,
        },
{
    let (score, via_folder) = match (name, folder) {
        (Some(n), Some(f)) => ((((n as u64) * 3 + (f as u64)) % 0x1_0000_0000) as u32, false),
        (Some(n), None) => ((((n as u64) * 3) % 0x1_0000_0000) as u32, false),
        (None, Some(f)) => {
            if f >= FOLDER_EXPAND_MIN {
                (f, true)
            } else {
                return None;
            }
        },
        (None, None) => {
            return None;
        },
    };
    let indices = sort_dedup_exec(offsets);
    Some(Hit { id, score, indices, via_folder })
}

/// One unscored hit per item, for an empty query.
pub open spec fn hits_view(v: Seq<Hit>) -> Seq<HitView> {
    v.map_values(|h: Hit| h@)
}

pub open spec fn all_hits(items: Seq<Item>) -> Seq<HitView> {
    items.map_values(|it: Item| HitView { id: it.id, score: 0, indices: Seq::empty(), via_folder: false })
}

/// What matching `query` gives each item: its filename's score and
/// offsets, and its folder's score.
pub open spec fn match_outs(items: Seq<Item>, query: Seq<char>) -> Seq<(Option<u32>, Seq<u32>, Option<u32>)> {
    items.map_values(
        |it: Item|
            (path_indices(query, it.filename@).0, path_indices(query, it.filename@).1, path_score(query, it.folder@)),
    )
}

/// `o` is what matching `query` against `it` gives under one of the two path
/// configurations, for its filename and for its folder.
pub open spec fn possible_out(query: Seq<char>, it: Item, o: (Option<u32>, Seq<u32>, Option<u32>)) -> bool {
    &&& ((o.0, o.1) == path_indices(query, it.filename@) || (o.0, o.1) == windows_path_indices(
        query,
        it.filename@,
    ))
    &&& (o.2 == path_score(query, it.folder@) || o.2 == windows_path_score(query, it.folder@))
}

/// No filename or folder holds a backslash.
pub open spec fn all_portable(items: Seq<Item>) -> bool {
    forall|k: int| 0 <= k < items.len() ==> portable((#[trigger] items[k]).filename@) && portable(items[k].folder@)
}

/// The hits the items make, in item order, from the match results `outs`:
/// (name score, name offsets, folder score) per item.
pub open spec fn matched(items: Seq<Item>, outs: Seq<(Option<u32>, Seq<u32>, Option<u32>)>) -> Seq<HitView>
    decreases items.len(),
{
    if items.len() == 0 || outs.len() != items.len() {
        Seq::empty()
    } else {
        let rest = matched(items.drop_last(), outs.drop_last());
        let o = outs.last();
        match hit_of(items.last().id, o.0, o.1, o.2) {
            Some(h) => rest.push(h),
            None => rest,
        }
    }
}

pub open spec fn has_item_id(id: i64) -> spec_fn(Item) -> bool {
    |it: Item| it.id == id
}

/// The key a hit is ranked by, read off the first item with its id; a hit
/// with no item gets empty texts and zeros.
pub open spec fn sort_key(items: Seq<Item>, h: HitView, sort: Sort) -> KeyView {
    let i = first_index(items, has_item_id(h.id));
    let found = i >= 0;
    let it = items[i];
    let none = Seq::<char>::empty();
    match sort {
        Sort::Relevance => KeyView { a: none, b: none, n: -(h.score as int), m: h.id as int },
        Sort::Name => KeyView { a: if found { lowercase(it.filename@) } else { none }, b: none, n: 0, m: 0 },
        Sort::Folder => KeyView {
            a: if found { lowercase(it.folder@) } else { none },
            b: if found { lowercase(it.filename@) } else { none },
            n: 0,
            m: 0,
        },
        Sort::Added => KeyView { a: none, b: none, n: if found { it.added_at as int } else { 0 }, m: 0 },
        Sort::Modified => KeyView { a: none, b: none, n: if found { it.mtime as int } else { 0 }, m: 0 },
        // Never-played files go after every played one, most recent first.
        Sort::Recent => {
            let t: int = if found { it.last_played as int } else { 0 };
            KeyView { a: none, b: none, n: if t == 0 { 1 } else { 0 }, m: -t }
        },
        Sort::Duration => KeyView { a: none, b: none, n: if found { it.duration_ms as int } else { 0 }, m: 0 },
    }
}

pub open spec fn hit_keys(items: Seq<Item>, hits: Seq<HitView>, sort: Sort) -> Seq<KeyView> {
    hits.map_values(|h: HitView| sort_key(items, h, sort))
}

/// `hits` in the order `p`, or in reverse.
pub open spec fn arranged(hits: Seq<HitView>, p: Seq<int>, reverse: bool) -> Seq<HitView> {
    Seq::new(
        hits.len(),
        |k: int| hits[p[if reverse {
            hits.len() - 1 - k
        } else {
            k
        }]],
    )
}

/// `r` is `hits` stably sorted by their keys under `sort`, reversed when
/// `desc` asks for it (never for relevance), then cut to `limit`.
pub open spec fn ranked(items: Seq<Item>, hits: Seq<HitView>, sort: Sort, desc: bool, limit: nat, r: Seq<HitView>) -> bool {
    exists|p: Seq<int>|
        #[trigger] sorted_order(hit_keys(items, hits, sort), p) && r == arranged(
            hits,
            p,
            desc && sort != Sort::Relevance,
        ).take(if limit < hits.len() { limit as int } else { hits.len() as int })
}

/// The first item with this id.
pub open spec fn item_of(items: Seq<Item>, id: i64) -> Item {
    items[first_index(items, has_item_id(id))]
}

/// What an ascending ranking means for each order, read off the items'
/// fields: no hit comes before one whose item is shorter (duration), was
/// added or modified earlier, or sorts first by lower-cased name (or folder,
/// then name); a never-played item never comes before a played one and
/// played ones go most recent first; relevance puts higher scores first and
/// equal scores by increasing id.
pub proof fn lemma_ranked_by_field(items: Seq<Item>, hits: Seq<HitView>, sort: Sort, limit: nat, r: Seq<HitView>)
    requires
        ranked(items, hits, sort, false, limit, r),
        forall|k: int| 0 <= k < hits.len() ==> first_index(items, has_item_id(#[trigger] hits[k].id)) >= 0,
    ensures
        forall|i: int, j: int|
            0 <= i < j < r.len() ==> {
                let x = item_of(items, #[trigger] r[i].id);
                let y = item_of(items, #[trigger] r[j].id);
                &&& sort == Sort::Duration ==> x.duration_ms <= y.duration_ms
                &&& sort == Sort::Added ==> x.added_at <= y.added_at
                &&& sort == Sort::Modified ==> x.mtime <= y.mtime
                &&& sort == Sort::Recent ==> (y.last_played == 0 || (x.last_played != 0 && x.last_played
                    >= y.last_played))
                &&& sort == Sort::Name ==> !text_lt(lowercase(y.filename@), lowercase(x.filename@))
                &&& sort == Sort::Folder ==> !text_lt(lowercase(y.folder@), lowercase(x.folder@))
                &&& sort == Sort::Relevance ==> (r[i].score > r[j].score || (r[i].score == r[j].score
                    && r[i].id <= r[j].id))
            },
{
    let ks = hit_keys(items, hits, sort);
    let m = if limit < hits.len() { limit as int } else { hits.len() as int };
    let p = choose|p: Seq<int>| #[trigger] sorted_order(ks, p) && r == arranged(hits, p, false).take(m);
    let none = Seq::<char>::empty();
    assert(!text_lt(none, none));
    assert forall|i: int, j: int| 0 <= i < j < r.len() implies {
        let x = item_of(items, #[trigger] r[i].id);
        let y = item_of(items, #[trigger] r[j].id);
        &&& sort == Sort::Duration ==> x.duration_ms <= y.duration_ms
        &&& sort == Sort::Added ==> x.added_at <= y.added_at
        &&& sort == Sort::Modified ==> x.mtime <= y.mtime
        &&& sort == Sort::Recent ==> (y.last_played == 0 || (x.last_played != 0 && x.last_played
            >= y.last_played))
        &&& sort == Sort::Name ==> !text_lt(lowercase(y.filename@), lowercase(x.filename@))
        &&& sort == Sort::Folder ==> !text_lt(lowercase(y.folder@), lowercase(x.folder@))
        &&& sort == Sort::Relevance ==> (r[i].score > r[j].score || (r[i].score == r[j].score
            && r[i].id <= r[j].id))
    } by {
        let a = p[i];
        let b = p[j];
        assert(r[i] == hits[a]);
        assert(r[j] == hits[b]);
        assert(before(ks, a, b));
        let ka = ks[a];
        let kb = ks[b];
        assert(ka == sort_key(items, hits[a], sort));
        assert(kb == sort_key(items, hits[b], sort));
        assert(first_index(items, has_item_id(hits[a].id)) >= 0);
        assert(first_index(items, has_item_id(hits[b].id)) >= 0);
        if sort == Sort::Name || sort == Sort::Folder {
            if text_lt(ka.a, kb.a) {
                lemma_text_lt_asymmetric(ka.a, kb.a);
            } else {
                lemma_text_lt_irreflexive(ka.a);
            }
        }
    }
}

/// Descending order is ascending order reversed, before the limit is
/// applied; relevance ignores `desc`. `asc` is the whole ascending ranking
/// and `r` a descending one cut to `limit`.
pub proof fn lemma_desc_is_asc_reversed(
    items: Seq<Item>,
    hits: Seq<HitView>,
    sort: Sort,
    limit: nat,
    asc: Seq<HitView>,
    r: Seq<HitView>,
)
    requires
        ranked(items, hits, sort, false, hits.len(), asc),
        ranked(items, hits, sort, true, limit, r),
    ensures
        r == (if sort == Sort::Relevance { asc } else { asc.reverse() }).take(
            if limit < hits.len() { limit as int } else { hits.len() as int },
        ),
{
    let ks = hit_keys(items, hits, sort);
    let p1 = choose|p: Seq<int>|
        #[trigger] sorted_order(ks, p) && asc == arranged(hits, p, false).take(hits.len() as int);
    let p2 = choose|p: Seq<int>|
        #[trigger] sorted_order(ks, p) && r == arranged(hits, p, sort != Sort::Relevance).take(
            if limit < hits.len() { limit as int } else { hits.len() as int },
        );
    lemma_sorted_order_unique(ks, p1, p2);
    assert(arranged(hits, p1, false).take(hits.len() as int) =~= arranged(hits, p1, false));
    if sort != Sort::Relevance {
        assert(arranged(hits, p1, true) =~= arranged(hits, p1, false).reverse());
    }
}

fn copy_hit(h: &Hit) -> (r: Hit)
    ensures
        r@ == h@,
{
    let mut indices: Vec<u32> = Vec::new();
    let mut i: usize = 0;
    while i < h.indices.len()
        invariant
            i <= h.indices@.len(),
            indices@ == h.indices@.take(i as int),
        decreases h.indices@.len() - i,
    {
        indices.push(h.indices[i]);
        assert(h.indices@.take(i + 1) =~= h.indices@.take(i as int).push(h.indices@[i as int]));
        i += 1;
    }
    assert(h.indices@.take(h.indices@.len() as int) =~= h.indices@);
    Hit { id: h.id, score: h.score, indices, via_folder: h.via_folder }
}

fn find_item(items: &Vec<Item>, id: i64) -> (r: Option<usize>)
    ensures
        match r {
            Some(i) => first_index(items@, has_item_id(id)) == i && i < items@.len(),
            None => first_index(items@, has_item_id(id)) == -1,
        },
{
    let mut i: usize = 0;
    while i < items.len()
        invariant
            i <= items@.len(),
            forall|j: int| 0 <= j < i ==> !(has_item_id(id))(#[trigger] items@[j]),
        decreases items@.len() - i,
    {
        if items[i].id == id {
            proof {
                lemma_first_index(items@, has_item_id(id), i as int);
            }
            return Some(i);
        }
        i += 1;
    }
    proof {
        lemma_first_index(items@, has_item_id(id), i as int);
    }
    None
}

fn lower_chars(s: &String) -> (r: Vec<char>)
    ensures
        r@ == lowercase(s@),
{
    let l = to_lower(s.as_str());
    chars_of(l.as_str())
}

fn key_for(items: &Vec<Item>, h: &Hit, sort: Sort) -> (r: Key)
    ensures
        r@ == sort_key(items@, h@, sort),
{
    let found = find_item(items, h.id);
    match sort {
        Sort::Relevance => Key { a: Vec::new(), b: Vec::new(), n: -(h.score as i128), m: h.id as i128 },
        Sort::Name => {
            let a = match found {
                Some(i) => lower_chars(&items[i].filename),
                None => Vec::new(),
            };
            Key { a, b: Vec::new(), n: 0, m: 0 }
        },
        Sort::Folder => {
            let (a, b) = match found {
                Some(i) => (lower_chars(&items[i].folder), lower_chars(&items[i].filename)),
                None => (Vec::new(), Vec::new()),
            };
            Key { a, b, n: 0, m: 0 }
        },
        Sort::Added => {
            let n: i128 = match found {
                Some(i) => items[i].added_at as i128,
                None => 0,
            };
            Key { a: Vec::new(), b: Vec::new(), n, m: 0 }
        },
        Sort::Modified => {
            let n: i128 = match found {
                Some(i) => items[i].mtime as i128,
                None => 0,
            };
            Key { a: Vec::new(), b: Vec::new(), n, m: 0 }
        },
        Sort::Recent => {
            let t: i128 = match found {
                Some(i) => items[i].last_played as i128,
                None => 0,
            };
            Key { a: Vec::new(), b: Vec::new(), n: if t == 0 { 1 } else { 0 }, m: -t }
        },
        Sort::Duration => {
            let n: i128 = match found {
                Some(i) => items[i].duration_ms as i128,
                None => 0,
            };
            Key { a: Vec::new(), b: Vec::new(), n, m: 0 }
        },
    }
}

/// Sorts `hits` by `sort` (by `fallback` when `sort` asks for relevance but
/// there are no scores to rank by) and cuts the list to `limit`. `desc`
/// reverses after sorting rather than negating keys, so it behaves the same
/// for text and numeric columns.
pub fn rank(items: &Vec<Item>, hits: Vec<Hit>, sort: Sort, fallback: Sort, desc: bool, limit: usize) -> (r: Vec<Hit>)
    ensures
        ranked(
            items@,
            hits_view(hits@),
            if sort == Sort::Relevance { fallback } else { sort },
            desc,
            limit as nat,
            hits_view(r@),
        ),
{
    let sort = if sort == Sort::Relevance {
        fallback
    } else {
        sort
    };
    let ghost hv = hits_view(hits@);
    let mut keys: Vec<Key> = Vec::new();
    let mut i: usize = 0;
    while i < hits.len()
        invariant
            i <= hits@.len(),
            hv == hits_view(hits@),
            keys@.len() == i,
            forall|k: int| 0 <= k < i ==> (#[trigger] keys@[k])@ == sort_key(items@, hv[k], sort),
        decreases hits@.len() - i,
    {
        keys.push(key_for(items, &hits[i], sort));
        i += 1;
    }
    let ghost ks = hit_keys(items@, hv, sort);
    assert(keys_view(keys@) =~= ks);
    let order = sort_order(&keys);
    let ghost p = order@.map_values(|i: usize| i as int);
    let reverse = desc && sort != Sort::Relevance;
    let n = hits.len();
    let end: usize = if limit < n {
        limit
    } else {
        n
    };
    let ghost all = arranged(hv, p, reverse);
    let mut r: Vec<Hit> = Vec::new();
    let mut k: usize = 0;
    assert(order@.len() == p.len());
    while k < end
        invariant
            n == hits@.len(),
            end <= n,
            k <= end,
            hv == hits_view(hits@),
            sorted_order(ks, p),
            ks.len() == n,
            order@.len() == n,
            p == order@.map_values(|i: usize| i as int),
            all == arranged(hv, p, reverse),
            hits_view(r@) == all.take(k as int),
        decreases end - k,
    {
        let pos = if reverse {
            n - 1 - k
        } else {
            k
        };
        assert(p[pos as int] == order@[pos as int] as int);
        let j = order[pos];
        let ghost before_r = r@;
        r.push(copy_hit(&hits[j]));
        assert(hits_view(r@) =~= hits_view(before_r).push(all[k as int]));
        assert(all.take(k + 1) =~= all.take(k as int).push(all[k as int]));
        k += 1;
    }
    assert(sorted_order(hit_keys(items@, hv, sort), p));
    r
}

/// The library's items and a matcher configured for paths.
pub struct Index {
    items: Vec<Item>,
    matcher: PathMatcher,
}

impl Index {
    pub closed spec fn items_view(&self) -> Seq<Item> {
        self.items@
    }

    pub fn new(items: Vec<Item>) -> (r: Index)
        ensures
            r.items_view() == items@,
    {
        Index { items, matcher: path_matcher() }
    }

    pub fn items(&self) -> (r: &[Item])
        ensures
            r@ == self.items_view(),
    {
        self.items.as_slice()
    }

    pub fn len(&self) -> (r: usize)
        ensures
            r == self.items_view().len(),
    {
        self.items.len()
    }

    pub fn is_empty(&self) -> (r: bool)
        ensures
            r == (self.items_view().len() == 0),
    {
        self.items.len() == 0
    }

    /// The first item with this id.
    pub fn get(&self, id: i64) -> (r: Option<&Item>)
        ensures
            match r {
                Some(it) => first_index(self.items_view(), has_item_id(id)) >= 0 && *it == self.items_view()[first_index(
                    self.items_view(),
                    has_item_id(id),
                )],
                None => first_index(self.items_view(), has_item_id(id)) == -1,
            },
    {
        match find_item(&self.items, id) {
            Some(i) => Some(&self.items[i]),
            None => None,
        }
    }

    /// Searches filenames and folders. An empty (or blank) query lists every
    /// item, by name when relevance is asked for. Otherwise each item's
    /// filename and folder are matched, and the hits are ranked.
    pub fn search(&mut self, query: &str, limit: usize, sort: Sort, desc: bool) -> (r: Vec<Hit>)
        ensures
            final(self).items_view() == old(self).items_view(),
            trim(query@).len() == 0 ==> ranked(
                old(self).items_view(),
                all_hits(old(self).items_view()),
                if sort == Sort::Relevance { Sort::Name } else { sort },
                desc,
                limit as nat,
                hits_view(r@),
            ),
            trim(query@).len() > 0 && portable(query@) && all_portable(old(self).items_view()) ==> ranked(
                old(self).items_view(),
                matched(old(self).items_view(), match_outs(old(self).items_view(), query@)),
                sort,
                desc,
                limit as nat,
                hits_view(r@),
            ),
            trim(query@).len() > 0 ==> exists|outs: Seq<(Option<u32>, Seq<u32>, Option<u32>)>|
                outs.len() == old(self).items_view().len() && (forall|k: int|
                    0 <= k < outs.len() ==> possible_out(query@, old(self).items_view()[k], #[trigger] outs[k]))
                    && #[trigger] ranked(
                    old(self).items_view(),
                    matched(old(self).items_view(), outs),
                    sort,
                    desc,
                    limit as nat,
                    hits_view(r@),
                ),
    {
        let q = trimmed(query);
        let ghost items = self.items@;
        if q.as_str().is_empty() {
            let mut hits: Vec<Hit> = Vec::new();
            let mut i: usize = 0;
            while i < self.items.len()
                invariant
                    items == self.items@,
                    i <= items.len(),
                    hits_view(hits@) == all_hits(items).take(i as int),
                decreases items.len() - i,
            {
                let ghost before_h = hits@;
                hits.push(Hit { id: self.items[i].id, score: 0, indices: Vec::new(), via_folder: false });
                assert(hits_view(hits@) =~= hits_view(before_h).push(
                    all_hits(items)[i as int],
                ));
                assert(all_hits(items).take(i + 1) =~= all_hits(items).take(i as int).push(all_hits(items)[i as int]));
                i += 1;
            }
            assert(all_hits(items).take(items.len() as int) =~= all_hits(items));
            return rank(&self.items, hits, sort, Sort::Name, desc, limit);
        }
        let mut hits: Vec<Hit> = Vec::new();
        let ghost mut outs: Seq<(Option<u32>, Seq<u32>, Option<u32>)> = Seq::empty();
        // Items arrive grouped by folder, so a folder's score is reused while
        // the folder stays the same rather than matched once per file.
        let mut cached: Option<(String, Option<u32>)> = None;
        let ghost exact = portable(query@) && all_portable(items);
        let mut i: usize = 0;
        while i < self.items.len()
            invariant
                items == self.items@,
                exact == (portable(query@) && all_portable(items)),
                i <= items.len(),
                outs.len() == i,
                hits_view(hits@) == matched(items.take(i as int), outs),
                exact ==> outs == match_outs(items.take(i as int), query@),
                exact ==> (cached matches Some(c) ==> c.1 == path_score(query@, c.0@)),
                cached matches Some(c) ==> (c.1 == path_score(query@, c.0@) || c.1 == windows_path_score(
                    query@,
                    c.0@,
                )),
                forall|k: int| 0 <= k < i ==> possible_out(query@, items[k], #[trigger] outs[k]),
            decreases items.len() - i,
        {
            let it = &self.items[i];
            let reuse = match &cached {
                Some((f, _)) => *f == it.folder,
                None => false,
            };
            let folder_score = if reuse {
                match &cached {
                    Some((_, s)) => *s,
                    None => None,
                }
            } else {
                let s = fuzzy_score(query, it.folder.as_str(), &mut self.matcher);
                cached = Some((it.folder.clone(), s));
                s
            };
            let (name_score, offsets) = fuzzy_indices(query, it.filename.as_str(), &mut self.matcher);
            let ghost before_h = hits@;
            let ghost before_o = outs;
            proof {
                outs = outs.push((name_score, offsets@, folder_score));
                assert(items.take(i + 1).drop_last() =~= items.take(i as int));
                assert(outs.drop_last() =~= before_o);
                if exact {
                    assert(items[i as int] == *it);
                    assert(match_outs(items.take(i + 1), query@) =~= match_outs(items.take(i as int), query@).push(
                        (name_score, offsets@, folder_score),
                    ));
                }
            }
            match score_hit(it.id, name_score, &offsets, folder_score) {
                Some(h) => {
                    hits.push(h);
                    assert(hits_view(hits@) =~= hits_view(before_h).push(
                        hits@.last()@,
                    ));
                },
                None => {},
            }
            i += 1;
        }
        assert(items.take(items.len() as int) =~= items);
        let ghost hv = hits_view(hits@);
        assert(exact ==> outs == match_outs(items, query@));
        let r = rank(&self.items, hits, sort, Sort::Relevance, desc, limit);
        proof {
            assert((if sort == Sort::Relevance { Sort::Relevance } else { sort }) == sort);
            assert(hv == matched(items, outs));
            assert(ranked(items, matched(items, outs), sort, desc, limit as nat, hits_view(r@)));
            assert(old(self).items_view() == items);
            assert(outs.len() == old(self).items_view().len() && ranked(
                old(self).items_view(),
                matched(old(self).items_view(), outs),
                sort,
                desc,
                limit as nat,
                hits_view(r@),
            ));
        }
        r
    }
}

} // verus!
