//! `.sbpack` files: a profile's user-authored metadata (tags, colours,
//! favourites), keyed by content so that it can be applied to another
//! person's copy of the same sounds.

use vstd::prelude::*;
use vstd::string::*;
use crate::db::{normalise_tag, tag_form, PackEntry};
use crate::text::{digits, format_radix, lowercase, to_lower};

verus! {

pub const FORMAT: u32 = 1;

pub const EXT: &'static str = "sbpack";

pub struct Tag {
    pub name: String,
    pub color: Option<String>,
}

pub struct Pack {
    pub format: u32,
    pub profile: String,
    pub exported_at: i64,
    pub tags: Vec<Tag>,
    pub entries: Vec<PackEntry>,
}

#[derive(Debug, Clone, Copy, PartialEq, Eq, Structural)]
pub enum Mode {
    /// Union of tags; a local favourite is never cleared.
    Merge,
    /// Incoming values replace local ones for matched sounds.
    Overwrite,
}

#[derive(Debug)]
pub struct Preview {
    pub total: usize,
    /// Matched by content hash: the same bytes, so certainly the same sound.
    pub exact: usize,
    /// Matched by filename and size only; could be a re-encode.
    pub fuzzy: usize,
    pub missing: usize,
    pub sample_missing: Vec<String>,
}

impl Default for Preview {
    fn default() -> (r: Preview)
        ensures
            r.total == 0 && r.exact == 0 && r.fuzzy == 0 && r.missing == 0,
            r.sample_missing@.len() == 0,
    {
        Preview { total: 0, exact: 0, fuzzy: 0, missing: 0, sample_missing: Vec::new() }
    }
}

/// A local file as matching sees it: (content key, filename, size).
pub type Fingerprint = (String, String, u64);

pub open spec fn fp_view(f: Fingerprint) -> (Seq<char>, Seq<char>, u64) {
    (f.0@, f.1@, f.2)
}

pub open spec fn fps_view(fps: Seq<Fingerprint>) -> Seq<(Seq<char>, Seq<char>, u64)> {
    fps.map_values(|f: Fingerprint| fp_view(f))
}

/// Some local file has this content key.
pub open spec fn has_key(fps: Seq<(Seq<char>, Seq<char>, u64)>, key: Seq<char>) -> bool {
    exists|i: int| 0 <= i < fps.len() && (#[trigger] fps[i]).0 == key
}

/// The last local file with this lower-cased name and size, or -1: later
/// files shadow earlier ones, as repeated inserts into a map do.
pub open spec fn last_name_size(fps: Seq<(Seq<char>, Seq<char>, u64)>, lname: Seq<char>, size: u64) -> int
    decreases fps.len(),
{
    if fps.len() == 0 {
        -1
    } else if lowercase(fps.last().1) == lname && fps.last().2 == size {
        fps.len() - 1
    } else {
        last_name_size(fps.drop_last(), lname, size)
    }
}

/// The local sound an entry applies to, and whether the match is exact:
/// by content key first, then by lower-cased filename and size.
pub open spec fn resolution(fps: Seq<(Seq<char>, Seq<char>, u64)>, key: Seq<char>, filename: Seq<char>, size: u64) -> Option<(Seq<char>, bool)> {
    if has_key(fps, key) {
        Some((key, true))
    } else {
        let i = last_name_size(fps, lowercase(filename), size);
        if i < 0 {
            None
        } else {
            Some((fps[i].0, false))
        }
    }
}

pub open spec fn entry_resolution(fps: Seq<(Seq<char>, Seq<char>, u64)>, e: PackEntry) -> Option<(Seq<char>, bool)> {
    resolution(fps, e.content_key@, e.filename@, e.size)
}

/// Local lookup tables: content keys, and (lower-cased filename, size, key).
pub struct Local {
    keys: Vec<String>,
    by_name_size: Vec<(String, u64, String)>,
    fps: Ghost<Seq<(Seq<char>, Seq<char>, u64)>>,
}

impl Local {
    pub closed spec fn wf(&self) -> bool {
        &&& self.keys@.len() == self.fps@.len()
        &&& self.by_name_size@.len() == self.fps@.len()
        &&& forall|i: int| 0 <= i < self.fps@.len() ==> {
            &&& (#[trigger] self.keys@[i])@ == self.fps@[i].0
            &&& self.by_name_size@[i].0@ == lowercase(self.fps@[i].1)
            &&& self.by_name_size@[i].1 == self.fps@[i].2
            &&& self.by_name_size@[i].2@ == self.fps@[i].0
        }
    }

    pub closed spec fn fingerprints(&self) -> Seq<(Seq<char>, Seq<char>, u64)> {
        self.fps@
    }
}

proof fn lemma_last_name_size(fps: Seq<(Seq<char>, Seq<char>, u64)>, lname: Seq<char>, size: u64, j: int)
    requires
        -1 <= j < fps.len(),
        j >= 0 ==> lowercase(fps[j].1) == lname && fps[j].2 == size,
        forall|k: int| j < k < fps.len() ==> !(lowercase(#[trigger] fps[k].1) == lname && fps[k].2 == size),
    ensures
        last_name_size(fps, lname, size) == j,
    decreases fps.len(),
{
    if fps.len() > 0 && j < fps.len() - 1 {
        let p = fps.drop_last();
        assert forall|k: int| j < k < p.len() implies !(lowercase(#[trigger] p[k].1) == lname && p[k].2 == size) by {
            assert(p[k] == fps[k]);
        }
        lemma_last_name_size(p, lname, size, j);
    }
}

/// Builds the lookup tables over the local files.
pub fn local_index(fps: &Vec<Fingerprint>) -> (r: Local)
    ensures
        r.wf(),
        r.fingerprints() == fps_view(fps@),
{
    let mut keys: Vec<String> = Vec::new();
    let mut by_name_size: Vec<(String, u64, String)> = Vec::new();
    let mut i: usize = 0;
    while i < fps.len()
        invariant
            i <= fps@.len(),
            keys@.len() == i,
            by_name_size@.len() == i,
            forall|k: int| 0 <= k < i ==> {
                &&& (#[trigger] keys@[k])@ == fps@[k].0@
                &&& by_name_size@[k].0@ == lowercase(fps@[k].1@)
                &&& by_name_size@[k].1 == fps@[k].2
                &&& by_name_size@[k].2@ == fps@[k].0@
            },
        decreases fps@.len() - i,
    {
        let f = &fps[i];
        keys.push(f.0.clone());
        by_name_size.push((to_lower(f.1.as_str()), f.2, f.0.clone()));
        i += 1;
    }
    let r = Local { keys, by_name_size, fps: Ghost(fps_view(fps@)) };
    assert(r.wf());
    r
}

/// The local sound entry `e` applies to, and whether the match is exact.
pub fn resolve(local: &Local, e: &PackEntry) -> (r: Option<(String, bool)>)
    requires
        local.wf(),
    ensures
        match r {
            Some((k, exact)) => entry_resolution(local.fingerprints(), *e) == Some((k@, exact)),
            None => entry_resolution(local.fingerprints(), *e) is None,
        },
{
    let ghost fps = local.fingerprints();
    let mut i: usize = 0;
    while i < local.keys.len()
        invariant
            local.wf(),
            fps == local.fingerprints(),
            i <= fps.len(),
            forall|k: int| 0 <= k < i ==> (#[trigger] fps[k]).0 != e.content_key@,
        decreases fps.len() - i,
    {
        if local.keys[i] == e.content_key {
            assert(fps[i as int].0 == e.content_key@);
            return Some((e.content_key.clone(), true));
        }
        i += 1;
    }
    let lname = to_lower(e.filename.as_str());
    let mut j = local.by_name_size.len();
    while j > 0
        invariant
            local.wf(),
            fps == local.fingerprints(),
            j <= fps.len(),
            !has_key(fps, e.content_key@),
            lname@ == lowercase(e.filename@),
            forall|k: int| j <= k < fps.len() ==> !(lowercase(#[trigger] fps[k].1) == lname@ && fps[k].2 == e.size),
        decreases j,
    {
        let t = &local.by_name_size[j - 1];
        assert(local.keys@[j - 1]@ == fps[j - 1].0);
        if t.0 == lname && t.1 == e.size {
            proof {
                lemma_last_name_size(fps, lname@, e.size, j - 1);
            }
            return Some((t.2.clone(), false));
        }
        j -= 1;
    }
    proof {
        lemma_last_name_size(fps, lname@, e.size, -1);
    }
    None
}

/// (exact, fuzzy, missing, sample of missing filenames) over the entries.
pub open spec fn tally(fps: Seq<(Seq<char>, Seq<char>, u64)>, es: Seq<PackEntry>) -> (nat, nat, nat, Seq<Seq<char>>)
    decreases es.len(),
{
    if es.len() == 0 {
        (0, 0, 0, Seq::empty())
    } else {
        let t = tally(fps, es.drop_last());
        let e = es.last();
        match entry_resolution(fps, e) {
            Some((_, true)) => (t.0 + 1, t.1, t.2, t.3),
            Some((_, false)) => (t.0, t.1 + 1, t.2, t.3),
            None => (t.0, t.1, t.2 + 1, if t.3.len() < 10 {
                t.3.push(e.filename@)
            } else {
                t.3
            }),
        }
    }
}

proof fn lemma_tally_sum(fps: Seq<(Seq<char>, Seq<char>, u64)>, es: Seq<PackEntry>)
    ensures
        tally(fps, es).0 + tally(fps, es).1 + tally(fps, es).2 == es.len(),
        tally(fps, es).3.len() <= 10,
    decreases es.len(),
{
    if es.len() > 0 {
        lemma_tally_sum(fps, es.drop_last());
    }
}

/// What applying the pack would do: how many entries match exactly, how many
/// only by name and size, how many match nothing, and the first ten of those.
pub fn preview(fps: &Vec<Fingerprint>, pack: &Pack) -> (r: Preview)
    ensures
        r.total == pack.entries@.len(),
        r.exact == tally(fps_view(fps@), pack.entries@).0,
        r.fuzzy == tally(fps_view(fps@), pack.entries@).1,
        r.missing == tally(fps_view(fps@), pack.entries@).2,
        r.sample_missing@.map_values(|s: String| s@) == tally(fps_view(fps@), pack.entries@).3,
{
    let local = local_index(fps);
    let ghost f = fps_view(fps@);
    let ghost es = pack.entries@;
    let mut p = Preview::default();
    p.total = pack.entries.len();
    let mut i: usize = 0;
    assert(es.take(0) =~= Seq::<PackEntry>::empty());
    assert(p.sample_missing@.map_values(|s: String| s@) =~= Seq::<Seq<char>>::empty());
    while i < pack.entries.len()
        invariant
            local.wf(),
            local.fingerprints() == f,
            es == pack.entries@,
            i <= es.len(),
            p.total == es.len(),
            p.exact == tally(f, es.take(i as int)).0,
            p.fuzzy == tally(f, es.take(i as int)).1,
            p.missing == tally(f, es.take(i as int)).2,
            p.sample_missing@.map_values(|s: String| s@) == tally(f, es.take(i as int)).3,
        decreases es.len() - i,
    {
        let e = &pack.entries[i];
        proof {
            assert(es.take(i + 1).drop_last() =~= es.take(i as int));
            assert(es.take(i + 1).last() == *e);
            lemma_tally_sum(f, es.take(i as int));
        }
        match resolve(&local, e) {
            Some((_, true)) => {
                p.exact += 1;
            },
            Some((_, false)) => {
                p.fuzzy += 1;
            },
            None => {
                p.missing += 1;
                if p.sample_missing.len() < 10 {
                    let ghost before = p.sample_missing@;
                    p.sample_missing.push(e.filename.clone());
                    assert(p.sample_missing@.map_values(|s: String| s@) =~= before.map_values(
                        |s: String| s@,
                    ).push(e.filename@));
                }
            },
        }
        i += 1;
    }
    assert(es.take(es.len() as int) =~= es);
    p
}


/// The entries that carry user metadata, a tag or the favourite flag, in order.
pub open spec fn with_metadata(es: Seq<PackEntry>) -> Seq<PackEntry>
    decreases es.len(),
{
    if es.len() == 0 {
        es
    } else {
        let rest = with_metadata(es.drop_last());
        if es.last().tags@.len() > 0 || es.last().favorite {
            rest.push(es.last())
        } else {
            rest
        }
    }
}

/// A snapshot of a profile's metadata, ready to be written. Only sounds with
/// metadata travel: an entry with no tag that is not a favourite is left out.
pub fn export(profile: &str, tag_colors: Vec<(String, Option<String>)>, entries: Vec<PackEntry>, exported_at: i64) -> (r: Pack)
    ensures
        r.format == FORMAT,
        r.profile@ == profile@,
        r.exported_at == exported_at,
        r.tags@.len() == tag_colors@.len(),
        forall|i: int|
            0 <= i < tag_colors@.len() ==> (#[trigger] r.tags@[i]).name == tag_colors@[i].0 && r.tags@[i].color
                == tag_colors@[i].1,
        r.entries@ == with_metadata(entries@),
{
    let mut tags: Vec<Tag> = Vec::new();
    let mut rest = tag_colors;
    let ghost all = rest@;
    let n = rest.len();
    assert(all.take(n as int) =~= all);
    // taken from the back, then reversed into place
    let mut rev: Vec<Tag> = Vec::new();
    while rest.len() > 0
        invariant
            n == all.len(),
            rest@ == all.take(rest@.len() as int),
            rev@.len() + rest@.len() == n,
            forall|k: int| 0 <= k < rev@.len() ==> (#[trigger] rev@[k]).name == all[n - 1 - k].0 && rev@[k].color
                == all[n - 1 - k].1,
        decreases rest@.len(),
    {
        let ghost before = rest@;
        let (name, color) = rest.pop().unwrap();
        assert(rest@ =~= all.take(rest@.len() as int));
        assert(before.last() == all[rest@.len() as int]);
        rev.push(Tag { name, color });
    }
    while rev.len() > 0
        invariant
            n == all.len(),
            rev@.len() + tags@.len() == n,
            forall|k: int| 0 <= k < rev@.len() ==> (#[trigger] rev@[k]).name == all[n - 1 - k].0 && rev@[k].color
                == all[n - 1 - k].1,
            forall|k: int| 0 <= k < tags@.len() ==> (#[trigger] tags@[k]).name == all[k].0 && tags@[k].color
                == all[k].1,
        decreases rev@.len(),
    {
        let t = rev.pop().unwrap();
        tags.push(t);
    }
    let mut left = entries;
    let ghost es = left@;
    let m = left.len();
    assert(es.take(m as int) =~= es);
    let mut back: Vec<PackEntry> = Vec::new();
    while left.len() > 0
        invariant
            m == es.len(),
            left@ == es.take(left@.len() as int),
            back@.len() + left@.len() == m,
            forall|k: int| 0 <= k < back@.len() ==> #[trigger] back@[k] == es[m - 1 - k],
        decreases left@.len(),
    {
        let ghost before = left@;
        let e = left.pop().unwrap();
        assert(left@ =~= es.take(left@.len() as int));
        assert(before.last() == es[left@.len() as int]);
        back.push(e);
    }
    let mut kept: Vec<PackEntry> = Vec::new();
    assert(es.take(0) =~= Seq::<PackEntry>::empty());
    while back.len() > 0
        invariant
            m == es.len(),
            back@.len() <= m,
            forall|k: int| 0 <= k < back@.len() ==> #[trigger] back@[k] == es[m - 1 - k],
            kept@ == with_metadata(es.take(m - back@.len())),
        decreases back@.len(),
    {
        let ghost p = m - back@.len();
        let e = back.pop().unwrap();
        assert(e == es[p]);
        assert(es.take(p + 1).drop_last() =~= es.take(p));
        assert(es.take(p + 1).last() == e);
        if e.tags.len() > 0 || e.favorite {
            kept.push(e);
        }
    }
    assert(es.take(m as int) =~= es);
    Pack { format: FORMAT, profile: String::from_str(profile), exported_at, tags, entries: kept }
}

/// (applied (key, entry index), exact, fuzzy, missing) for an import.
pub open spec fn plan(fps: Seq<(Seq<char>, Seq<char>, u64)>, es: Seq<PackEntry>, include_fuzzy: bool) -> (Seq<(Seq<char>, nat)>, nat, nat, nat)
    decreases es.len(),
{
    if es.len() == 0 {
        (Seq::empty(), 0, 0, 0)
    } else {
        let t = plan(fps, es.drop_last(), include_fuzzy);
        let i = (es.len() - 1) as nat;
        match entry_resolution(fps, es.last()) {
            Some((k, true)) => (t.0.push((k, i)), t.1 + 1, t.2, t.3),
            Some((k, false)) => if include_fuzzy {
                (t.0.push((k, i)), t.1, t.2 + 1, t.3)
            } else {
                (t.0, t.1, t.2, t.3 + 1)
            },
            None => (t.0, t.1, t.2, t.3 + 1),
        }
    }
}

proof fn lemma_plan_sum(fps: Seq<(Seq<char>, Seq<char>, u64)>, es: Seq<PackEntry>, f: bool)
    ensures
        plan(fps, es, f).1 + plan(fps, es, f).2 + plan(fps, es, f).3 == es.len(),
    decreases es.len(),
{
    if es.len() > 0 {
        lemma_plan_sum(fps, es.drop_last(), f);
    }
}

/// A preview and an import plan over the same files and entries agree: the
/// preview's three counts sum to the number of entries and it samples the
/// first ten missing ones (or all, if fewer); an import with fuzzy matches
/// counts exactly what the preview counts, and one without counts the fuzzy
/// matches as missing.
pub proof fn lemma_preview_agrees_with_import(fps: Seq<(Seq<char>, Seq<char>, u64)>, es: Seq<PackEntry>)
    ensures
        ({
            let t = tally(fps, es);
            let with = plan(fps, es, true);
            let without = plan(fps, es, false);
            &&& t.0 + t.1 + t.2 == es.len()
            &&& t.3.len() == if t.2 < 10 { t.2 } else { 10 }
            &&& with.1 == t.0 && with.2 == t.1 && with.3 == t.2
            &&& without.1 == t.0 && without.2 == 0 && without.3 == t.1 + t.2
        }),
    decreases es.len(),
{
    if es.len() > 0 {
        lemma_preview_agrees_with_import(fps, es.drop_last());
    }
}

/// Every entry that resolves to a local sound is applied, as (its local key,
/// its index), when the match is exact or when fuzzy matches are included;
/// nothing else is applied; and the applies number exact plus fuzzy.
pub proof fn lemma_import_applies_every_match(
    fps: Seq<(Seq<char>, Seq<char>, u64)>,
    es: Seq<PackEntry>,
    include_fuzzy: bool,
)
    ensures
        plan(fps, es, include_fuzzy).0.len() == plan(fps, es, include_fuzzy).1 + plan(fps, es, include_fuzzy).2,
        forall|k: int|
            0 <= k < es.len() && (#[trigger] entry_resolution(fps, es[k])) is Some && ((entry_resolution(
                fps,
                es[k],
            )->0).1 || include_fuzzy) ==> plan(fps, es, include_fuzzy).0.contains(
                ((entry_resolution(fps, es[k])->0).0, k as nat),
            ),
        forall|a: (Seq<char>, nat)|
            #[trigger] plan(fps, es, include_fuzzy).0.contains(a) ==> a.1 < es.len() && (entry_resolution(
                fps,
                es[a.1 as int],
            ) == Some((a.0, true)) || (include_fuzzy && entry_resolution(fps, es[a.1 as int]) == Some(
                (a.0, false),
            ))),
    decreases es.len(),
{
    if es.len() > 0 {
        let init = es.drop_last();
        lemma_import_applies_every_match(fps, init, include_fuzzy);
        let t = plan(fps, init, include_fuzzy);
        let p = plan(fps, es, include_fuzzy);
        let n = es.len() - 1;
        assert forall|k: int|
            0 <= k < es.len() && (#[trigger] entry_resolution(fps, es[k])) is Some && ((entry_resolution(
                fps,
                es[k],
            )->0).1 || include_fuzzy) implies p.0.contains(((entry_resolution(fps, es[k])->0).0, k as nat)) by {
            let key = (entry_resolution(fps, es[k])->0).0;
            if k < n {
                assert(init[k] == es[k]);
                assert(t.0.contains((key, k as nat)));
                let w = choose|w: int| 0 <= w < t.0.len() && t.0[w] == (key, k as nat);
                assert(p.0[w] == t.0[w]);
            } else {
                assert(p.0[p.0.len() - 1] == (key, k as nat));
            }
        }
        assert forall|a: (Seq<char>, nat)| #[trigger] p.0.contains(a) implies a.1 < es.len() && (entry_resolution(
            fps,
            es[a.1 as int],
        ) == Some((a.0, true)) || (include_fuzzy && entry_resolution(fps, es[a.1 as int]) == Some((a.0, false)))) by {
            let w = choose|w: int| 0 <= w < p.0.len() && p.0[w] == a;
            if w < t.0.len() {
                assert(t.0[w] == p.0[w]);
                assert(t.0.contains(a));
                assert(init[a.1 as int] == es[a.1 as int]);
            }
        }
    }
}

/// An import only ever writes to sounds already in the library: each key
/// the plan applies to belongs to a local file and is what the entry at the
/// recorded index resolves to, exactly or, when `include_fuzzy` allows it,
/// by name and size. Without `include_fuzzy` no fuzzy match is counted.
pub proof fn lemma_import_touches_only_local_sounds(
    fps: Seq<(Seq<char>, Seq<char>, u64)>,
    es: Seq<PackEntry>,
    include_fuzzy: bool,
)
    ensures
        forall|k: int|
            0 <= k < plan(fps, es, include_fuzzy).0.len() ==> {
                let a = #[trigger] plan(fps, es, include_fuzzy).0[k];
                &&& has_key(fps, a.0)
                &&& a.1 < es.len()
                &&& (entry_resolution(fps, es[a.1 as int]) == Some((a.0, true)) || (include_fuzzy
                    && entry_resolution(fps, es[a.1 as int]) == Some((a.0, false))))
            },
        !include_fuzzy ==> plan(fps, es, include_fuzzy).2 == 0,
    decreases es.len(),
{
    if es.len() > 0 {
        let init = es.drop_last();
        lemma_import_touches_only_local_sounds(fps, init, include_fuzzy);
        let t = plan(fps, init, include_fuzzy);
        let p = plan(fps, es, include_fuzzy);
        let e = es.last();
        let n = (es.len() - 1) as nat;
        assert forall|k: int| 0 <= k < p.0.len() implies {
            let a = #[trigger] p.0[k];
            &&& has_key(fps, a.0)
            &&& a.1 < es.len()
            &&& (entry_resolution(fps, es[a.1 as int]) == Some((a.0, true)) || (include_fuzzy
                && entry_resolution(fps, es[a.1 as int]) == Some((a.0, false))))
        } by {
            if k < t.0.len() {
                assert(p.0[k] == t.0[k]);
                let a = t.0[k];
                assert(es[a.1 as int] == init[a.1 as int]);
            } else {
                assert(p.0[k] == ((entry_resolution(fps, e)->0).0, n));
                if !has_key(fps, e.content_key@) {
                    let j = last_name_size(fps, lowercase(e.filename@), e.size);
                    lemma_last_name_size_bounds(fps, lowercase(e.filename@), e.size);
                    assert(fps[j].0 == p.0[k].0);
                }
            }
        }
    }
}

proof fn lemma_last_name_size_bounds(fps: Seq<(Seq<char>, Seq<char>, u64)>, lname: Seq<char>, size: u64)
    ensures
        -1 <= last_name_size(fps, lname, size) < fps.len(),
    decreases fps.len(),
{
    if fps.len() > 0 {
        lemma_last_name_size_bounds(fps.drop_last(), lname, size);
    }
}

/// The colour of every tag that carries one, in pack order.
pub open spec fn tag_colors(tags: Seq<Tag>) -> Seq<(Seq<char>, Seq<char>)>
    decreases tags.len(),
{
    if tags.len() == 0 {
        Seq::empty()
    } else {
        let t = tag_colors(tags.drop_last());
        match tags.last().color {
            Some(c) => t.push((tags.last().name@, c@)),
            None => t,
        }
    }
}

/// The writes that importing a pack consists of, for the caller to apply in
/// one transaction, and the counts it reports.
pub struct ImportPlan {
    /// (tag, colour) to set, in pack order.
    pub colors: Vec<(String, String)>,
    /// (local content key, index of the pack entry) to apply, in pack order.
    pub applies: Vec<(String, usize)>,
    /// How each matched entry is applied; see [`apply_entry`].
    pub mode: Mode,
    /// Counts of what was applied; `missing` includes fuzzy matches left out.
    pub applied: Preview,
}

/// Plans the import of `pack` onto the local files. Entries match by content
/// key first; a match by name and size only counts when `include_fuzzy`.
/// Nothing is ever added for an entry that matches no local file.
pub fn plan_import(fps: &Vec<Fingerprint>, pack: &Pack, mode: Mode, include_fuzzy: bool) -> (r: ImportPlan)
    ensures
        r.mode == mode,
        r.colors@.map_values(|c: (String, String)| (c.0@, c.1@)) == tag_colors(pack.tags@),
        r.applies@.map_values(|a: (String, usize)| (a.0@, a.1 as nat)) == plan(
            fps_view(fps@),
            pack.entries@,
            include_fuzzy,
        ).0,
        r.applied.total == pack.entries@.len(),
        r.applied.exact == plan(fps_view(fps@), pack.entries@, include_fuzzy).1,
        r.applied.fuzzy == plan(fps_view(fps@), pack.entries@, include_fuzzy).2,
        r.applied.missing == plan(fps_view(fps@), pack.entries@, include_fuzzy).3,
        r.applied.sample_missing@.len() == 0,
{
    let mut colors: Vec<(String, String)> = Vec::new();
    let ghost ts = pack.tags@;
    let mut t: usize = 0;
    assert(ts.take(0) =~= Seq::<Tag>::empty());
    assert(colors@.map_values(|c: (String, String)| (c.0@, c.1@)) =~= Seq::<(Seq<char>, Seq<char>)>::empty());
    while t < pack.tags.len()
        invariant
            ts == pack.tags@,
            t <= ts.len(),
            colors@.map_values(|c: (String, String)| (c.0@, c.1@)) == tag_colors(ts.take(t as int)),
        decreases ts.len() - t,
    {
        let tag = &pack.tags[t];
        assert(ts.take(t + 1).drop_last() =~= ts.take(t as int));
        assert(ts.take(t + 1).last() == *tag);
        if let Some(c) = &tag.color {
            let ghost before = colors@;
            colors.push((tag.name.clone(), c.clone()));
            assert(colors@.map_values(|c: (String, String)| (c.0@, c.1@)) =~= before.map_values(
                |c: (String, String)| (c.0@, c.1@),
            ).push((tag.name@, c@)));
        }
        t += 1;
    }
    assert(ts.take(ts.len() as int) =~= ts);
    let local = local_index(fps);
    let ghost f = fps_view(fps@);
    let ghost es = pack.entries@;
    let mut applies: Vec<(String, usize)> = Vec::new();
    let mut applied = Preview::default();
    applied.total = pack.entries.len();
    let mut i: usize = 0;
    assert(es.take(0) =~= Seq::<PackEntry>::empty());
    assert(applies@.map_values(|a: (String, usize)| (a.0@, a.1 as nat)) =~= Seq::<(Seq<char>, nat)>::empty());
    while i < pack.entries.len()
        invariant
            local.wf(),
            local.fingerprints() == f,
            es == pack.entries@,
            i <= es.len(),
            applied.total == es.len(),
            applied.sample_missing@.len() == 0,
            applies@.map_values(|a: (String, usize)| (a.0@, a.1 as nat)) == plan(f, es.take(i as int), include_fuzzy).0,
            applied.exact == plan(f, es.take(i as int), include_fuzzy).1,
            applied.fuzzy == plan(f, es.take(i as int), include_fuzzy).2,
            applied.missing == plan(f, es.take(i as int), include_fuzzy).3,
        decreases es.len() - i,
    {
        let e = &pack.entries[i];
        proof {
            assert(es.take(i + 1).drop_last() =~= es.take(i as int));
            assert(es.take(i + 1).last() == *e);
            lemma_plan_sum(f, es.take(i as int), include_fuzzy);
        }
        match resolve(&local, e) {
            Some((key, exact)) => {
                if !exact && !include_fuzzy {
                    applied.missing += 1;
                } else {
                    let ghost before = applies@;
                    applies.push((key, i));
                    assert(applies@.map_values(|a: (String, usize)| (a.0@, a.1 as nat)) =~= before.map_values(
                        |a: (String, usize)| (a.0@, a.1 as nat),
                    ).push((applies@.last().0@, i as nat)));
                    if exact {
                        applied.exact += 1;
                    } else {
                        applied.fuzzy += 1;
                    }
                }
            },
            None => {
                applied.missing += 1;
            },
        }
        i += 1;
    }
    assert(es.take(es.len() as int) =~= es);
    ImportPlan { colors, applies, mode, applied }
}

/// Some string of `v` reads `t`.
pub open spec fn has_tag(v: Seq<String>, t: Seq<char>) -> bool {
    exists|i: int| 0 <= i < v.len() && (#[trigger] v[i])@ == t
}

/// No two strings of `v` read the same.
pub open spec fn distinct_tags(v: Seq<String>) -> bool {
    forall|i: int, j: int| 0 <= i < j < v.len() ==> (#[trigger] v[i])@ != (#[trigger] v[j])@
}

/// The tags of `v`, as a set.
pub open spec fn tag_set(v: Seq<String>) -> Set<Seq<char>> {
    Set::new(|t: Seq<char>| has_tag(v, t))
}

/// The stored forms of an entry's tags, blank ones dropped.
pub open spec fn incoming_set(tags: Seq<String>) -> Set<Seq<char>> {
    Set::new(|t: Seq<char>| exists|i: int| 0 <= i < tags.len() && tag_form((#[trigger] tags[i])@) == Some(t))
}

/// A sound's user tags and favourite flag once an entry has been applied
/// to it: merging takes the union of tags and never clears a favourite;
/// overwriting takes the entry's tags and flag.
pub open spec fn metadata_after(
    local: Set<Seq<char>>,
    local_fav: bool,
    incoming: Set<Seq<char>>,
    incoming_fav: bool,
    mode: Mode,
) -> (Set<Seq<char>>, bool) {
    match mode {
        Mode::Merge => (local.union(incoming), local_fav || incoming_fav),
        Mode::Overwrite => (incoming, incoming_fav),
    }
}

fn contains_tag(v: &Vec<String>, t: &String) -> (r: bool)
    ensures
        r == has_tag(v@, t@),
{
    let mut i: usize = 0;
    while i < v.len()
        invariant
            i <= v@.len(),
            forall|k: int| 0 <= k < i ==> (#[trigger] v@[k])@ != t@,
        decreases v@.len() - i,
    {
        if v[i] == *t {
            return true;
        }
        i += 1;
    }
    false
}

/// The tags of `v[..n]`, as a set.
pub open spec fn prefix_set(v: Seq<String>, n: int) -> Set<Seq<char>> {
    Set::new(|t: Seq<char>| exists|k: int| 0 <= k < n && (#[trigger] v[k])@ == t)
}

/// The stored forms of `tags[..n]`, blank ones dropped.
pub open spec fn incoming_prefix(tags: Seq<String>, n: int) -> Set<Seq<char>> {
    Set::new(|t: Seq<char>| exists|k: int| 0 <= k < n && tag_form((#[trigger] tags[k])@) == Some(t))
}

proof fn lemma_tag_set_push(v: Seq<String>, x: String)
    ensures
        tag_set(v.push(x)) == tag_set(v).insert(x@),
{
    let w = v.push(x);
    assert forall|t: Seq<char>| tag_set(w).contains(t) <==> tag_set(v).insert(x@).contains(t) by {
        if has_tag(w, t) {
            let i = choose|i: int| 0 <= i < w.len() && (#[trigger] w[i])@ == t;
            if i < v.len() {
                assert(v[i] == w[i]);
            }
        }
        if has_tag(v, t) {
            let i = choose|i: int| 0 <= i < v.len() && (#[trigger] v[i])@ == t;
            assert(w[i] == v[i]);
        }
        if t == x@ {
            assert(w[v.len() as int] == x);
        }
    }
    assert(tag_set(w) =~= tag_set(v).insert(x@));
}

proof fn lemma_prefix_step(v: Seq<String>, n: int)
    requires
        0 <= n < v.len(),
    ensures
        prefix_set(v, n + 1) == prefix_set(v, n).insert(v[n]@),
{
    assert forall|t: Seq<char>| prefix_set(v, n + 1).contains(t) <==> prefix_set(v, n).insert(v[n]@).contains(t) by {
        if prefix_set(v, n + 1).contains(t) {
            let k = choose|k: int| 0 <= k < n + 1 && (#[trigger] v[k])@ == t;
            if k < n {
                assert(prefix_set(v, n).contains(t));
            }
        }
    }
    assert(prefix_set(v, n + 1) =~= prefix_set(v, n).insert(v[n]@));
}

proof fn lemma_incoming_step(tags: Seq<String>, n: int)
    requires
        0 <= n < tags.len(),
    ensures
        incoming_prefix(tags, n + 1) == match tag_form(tags[n]@) {
            Some(f) => incoming_prefix(tags, n).insert(f),
            None => incoming_prefix(tags, n),
        },
{
    let want = match tag_form(tags[n]@) {
        Some(f) => incoming_prefix(tags, n).insert(f),
        None => incoming_prefix(tags, n),
    };
    assert forall|t: Seq<char>| incoming_prefix(tags, n + 1).contains(t) <==> want.contains(t) by {
        if incoming_prefix(tags, n + 1).contains(t) {
            let k = choose|k: int| 0 <= k < n + 1 && tag_form((#[trigger] tags[k])@) == Some(t);
            if k < n {
                assert(incoming_prefix(tags, n).contains(t));
            }
        }
        if incoming_prefix(tags, n).contains(t) {
            let k = choose|k: int| 0 <= k < n && tag_form((#[trigger] tags[k])@) == Some(t);
            assert(0 <= k < n + 1);
        }
    }
    assert(incoming_prefix(tags, n + 1) =~= want);
}

/// The user tags (each once) and favourite flag a local sound ends with when
/// the pack entry `e` is applied to it in `mode`; the entry's tags are stored
/// trimmed and lower-cased, and blank ones are ignored.
pub fn apply_entry(local_tags: &Vec<String>, local_fav: bool, e: &PackEntry, mode: Mode) -> (r: (Vec<String>, bool))
    ensures
        distinct_tags(r.0@),
        (tag_set(r.0@), r.1) == metadata_after(tag_set(local_tags@), local_fav, incoming_set(e.tags@), e.favorite, mode),
{
    let mut out: Vec<String> = Vec::new();
    let merge = mode == Mode::Merge;
    assert(tag_set(out@) =~= Set::<Seq<char>>::empty());
    assert(prefix_set(local_tags@, 0) =~= Set::<Seq<char>>::empty());
    let mut i: usize = 0;
    if merge {
        while i < local_tags.len()
            invariant
                i <= local_tags@.len(),
                distinct_tags(out@),
                tag_set(out@) == prefix_set(local_tags@, i as int),
            decreases local_tags@.len() - i,
        {
            let l = &local_tags[i];
            proof {
                lemma_prefix_step(local_tags@, i as int);
            }
            if !contains_tag(&out, l) {
                let c = l.clone();
                proof {
                    lemma_tag_set_push(out@, c);
                }
                out.push(c);
            } else {
                assert(tag_set(out@).contains(l@));
                assert(tag_set(out@).insert(l@) =~= tag_set(out@));
            }
            i += 1;
        }
        assert(prefix_set(local_tags@, local_tags@.len() as int) =~= tag_set(local_tags@));
    }
    let ghost kept = tag_set(out@);
    assert(kept == if merge { tag_set(local_tags@) } else { Set::<Seq<char>>::empty() });
    assert(incoming_prefix(e.tags@, 0) =~= Set::<Seq<char>>::empty());
    assert(kept.union(incoming_prefix(e.tags@, 0)) =~= kept);
    let mut j: usize = 0;
    while j < e.tags.len()
        invariant
            j <= e.tags@.len(),
            distinct_tags(out@),
            tag_set(out@) == kept.union(incoming_prefix(e.tags@, j as int)),
        decreases e.tags@.len() - j,
    {
        let x = &e.tags[j];
        proof {
            lemma_incoming_step(e.tags@, j as int);
        }
        match normalise_tag(x.as_str()) {
            Some(n) => {
                if !contains_tag(&out, &n) {
                    proof {
                        lemma_tag_set_push(out@, n);
                    }
                    out.push(n);
                    assert(tag_set(out@) =~= kept.union(incoming_prefix(e.tags@, j + 1)));
                } else {
                    assert(tag_set(out@).contains(n@));
                    assert(tag_set(out@) =~= kept.union(incoming_prefix(e.tags@, j + 1)));
                }
            },
            None => {
                assert(tag_set(out@) =~= kept.union(incoming_prefix(e.tags@, j + 1)));
            },
        }
        j += 1;
    }
    assert(incoming_prefix(e.tags@, e.tags@.len() as int) =~= incoming_set(e.tags@));
    let fav = if merge {
        local_fav || e.favorite
    } else {
        e.favorite
    };
    proof {
        if !merge {
            assert(kept.union(incoming_set(e.tags@)) =~= incoming_set(e.tags@));
        }
    }
    (out, fav)
}

/// Applying the same entry a second time changes nothing, in either mode.
pub proof fn lemma_applying_twice_changes_nothing(
    local: Set<Seq<char>>,
    local_fav: bool,
    incoming: Set<Seq<char>>,
    incoming_fav: bool,
    mode: Mode,
)
    ensures
        ({
            let once = metadata_after(local, local_fav, incoming, incoming_fav, mode);
            metadata_after(once.0, once.1, incoming, incoming_fav, mode) == once
        }),
{
    let once = metadata_after(local, local_fav, incoming, incoming_fav, mode);
    if mode == Mode::Merge {
        assert(once.0.union(incoming) =~= once.0);
    }
}

/// Merging never loses local metadata: every local tag stays and a local
/// favourite stays set. Overwriting leaves exactly what the entry carries.
pub proof fn lemma_merge_keeps_local_metadata(
    local: Set<Seq<char>>,
    local_fav: bool,
    incoming: Set<Seq<char>>,
    incoming_fav: bool,
)
    ensures
        local.subset_of(metadata_after(local, local_fav, incoming, incoming_fav, Mode::Merge).0),
        incoming.subset_of(metadata_after(local, local_fav, incoming, incoming_fav, Mode::Merge).0),
        local_fav ==> metadata_after(local, local_fav, incoming, incoming_fav, Mode::Merge).1,
        metadata_after(local, local_fav, incoming, incoming_fav, Mode::Overwrite) == (incoming, incoming_fav),
{
}

/// Why a pack cannot be read or written.
#[derive(Debug, PartialEq, Eq)]
pub enum PackError {
    /// Compression failed.
    Compress,
    /// Gzip data that does not decompress.
    Decompress,
    /// Made by a newer version of the application; the format number.
    NewerFormat(u32),
}

impl PackError {
    /// The sentence shown to the user.
    pub fn message(&self) -> (r: String)
        ensures
            r@ == match self {
                PackError::Compress => "could not compress the pack"@,
                PackError::Decompress => "the pack is not valid gzip"@,
                PackError::NewerFormat(f) => "this pack was made by a newer version of SoundBox (format "@
                    + digits(*f as nat, 10) + ")"@,
            },
    {
        match self {
            PackError::Compress => String::from_str("could not compress the pack"),
            PackError::Decompress => String::from_str("the pack is not valid gzip"),
            PackError::NewerFormat(f) => {
                let mut r = String::from_str("this pack was made by a newer version of SoundBox (format ");
                let d = format_radix(*f as u128, 10);
                r.append(d.as_str());
                r.append(")");
                r
            },
        }
    }
}

/// What gzip compression with the default level makes of `data`; flate2
/// writes a fixed header (no timestamp, OS byte 255), so the stream depends
/// on the data alone.
pub uninterp spec fn gzip(data: Seq<u8>) -> Seq<u8>;

/// What gzip decompression makes of `data`: `None` when it is not a valid stream.
pub uninterp spec fn gunzip(data: Seq<u8>) -> Option<Seq<u8>>;

/// `flate2::write::GzEncoder` at the default level, written to a `Vec`.
/// Claims: it succeeds, since `GzEncoder` only passes on its inner writer's
/// errors, a `Vec` never fails a write, and miniz_oxide's deflate reports an
/// error only for a misuse the encoder never makes; the result is named
/// `gzip(data)`, starts with the gzip magic bytes 1f 8b, and decompressing it
/// gives `data` back.
#[verifier::external_body]
fn gzip_bytes(data: &[u8]) -> (r: Option<Vec<u8>>)
    ensures
        r is Some,
        r matches Some(v) ==> v@ == gzip(data@) && gunzip(v@) == Some(data@) && v@.len() >= 2
            && v@[0] == 0x1f && v@[1] == 0x8b,
{
    let mut enc = flate2::write::GzEncoder::new(Vec::new(), flate2::Compression::default());
    match std::io::Write::write_all(&mut enc, data) {
        Ok(()) => enc.finish().ok(),
        Err(_) => None,
    }
}

/// `flate2::read::GzDecoder` read to the end. Claims: the result is
/// `gunzip(data)`, `None` exactly when that is.
#[verifier::external_body]
fn gunzip_bytes(data: &[u8]) -> (r: Option<Vec<u8>>)
    ensures
        match r {
            Some(v) => gunzip(data@) == Some(v@),
            None => gunzip(data@) is None,
        },
{
    let mut out = Vec::new();
    match std::io::Read::read_to_end(&mut flate2::read::GzDecoder::new(data), &mut out) {
        Ok(_) => Some(out),
        Err(_) => None,
    }
}

/// Starts with the gzip magic bytes.
pub open spec fn is_gzip(raw: Seq<u8>) -> bool {
    raw.len() >= 2 && raw[0] == 0x1f && raw[1] == 0x8b
}

/// The bytes written for a pack's JSON: gzip, since packs are highly
/// repetitive JSON and shrink about tenfold.
pub fn encode_pack_bytes(json: &[u8]) -> (r: Result<Vec<u8>, PackError>)
    ensures
        match r {
            Ok(v) => v@ == gzip(json@) && is_gzip(v@) && gunzip(v@) == Some(json@),
            Err(e) => e == PackError::Compress,
        },
        r is Ok,
{
    match gzip_bytes(json) {
        Some(v) => Ok(v),
        None => Err(PackError::Compress),
    }
}

/// The JSON inside a pack file's bytes: gzip is undone, and plain JSON is
/// accepted as it is, so that a hand-edited pack still imports.
pub fn decode_pack_bytes(raw: Vec<u8>) -> (r: Result<Vec<u8>, PackError>)
    ensures
        match r {
            Ok(v) => read_back(raw@) == Some(v@),
            Err(e) => e == PackError::Decompress && read_back(raw@) is None,
        },
{
    if raw.len() >= 2 && raw[0] == 0x1f && raw[1] == 0x8b {
        match gunzip_bytes(raw.as_slice()) {
            Some(v) => Ok(v),
            None => Err(PackError::Decompress),
        }
    } else {
        Ok(raw)
    }
}

/// The JSON read back from a pack file's bytes.
pub open spec fn read_back(raw: Seq<u8>) -> Option<Seq<u8>> {
    if is_gzip(raw) {
        gunzip(raw)
    } else {
        Some(raw)
    }
}

/// Reading back the bytes that `encode_pack_bytes` wrote for some JSON gives
/// that JSON exactly.
pub proof fn lemma_pack_bytes_round_trip(json: Seq<u8>, written: Seq<u8>)
    requires
        written == gzip(json) && is_gzip(written) && gunzip(written) == Some(json),
    ensures
        read_back(written) == Some(json),
{
}

/// Refuses a pack made by a newer version of the format.
pub fn check_format(pack: Pack) -> (r: Result<Pack, PackError>)
    ensures
        pack.format > FORMAT ==> r == Err::<Pack, PackError>(PackError::NewerFormat(pack.format)),
        pack.format <= FORMAT ==> r == Ok::<Pack, PackError>(pack),
{
    if pack.format > FORMAT {
        Err(PackError::NewerFormat(pack.format))
    } else {
        Ok(pack)
    }
}

} // verus!
