//! Nearest-neighbour lookup over the scan's timbral features: which entries
//! may be offered as "sounds like this".

use vstd::prelude::*;
use crate::text::{first_index, lemma_first_index};

verus! {

pub struct Entry {
    pub id: i64,
    pub content_key: String,
    pub duration_ms: u64,
}

pub open spec fn has_entry_id(id: i64) -> spec_fn(Entry) -> bool {
    |e: Entry| e.id == id
}

/// Index of the first entry with this id.
pub fn position(entries: &Vec<Entry>, id: i64) -> (r: Option<usize>)
    ensures
        match r {
            Some(i) => first_index(entries@, has_entry_id(id)) == i,
            None => first_index(entries@, has_entry_id(id)) == -1,
        },
{
    let mut i: usize = 0;
    while i < entries.len()
        invariant
            i <= entries@.len(),
            forall|j: int| 0 <= j < i ==> !(has_entry_id(id))(#[trigger] entries@[j]),
        decreases entries@.len() - i,
    {
        if entries[i].id == id {
            proof {
                lemma_first_index(entries@, has_entry_id(id), i as int);
            }
            return Some(i);
        }
        i += 1;
    }
    proof {
        lemma_first_index(entries@, has_entry_id(id), i as int);
    }
    None
}

/// Entries that may be suggested for `entries[target]`, whose content key is
/// `key`: every other entry, except aliases of the same recording (same
/// content key), which are not useful suggestions. In index order.
pub open spec fn candidate_indices(entries: Seq<Entry>, target: int, key: Seq<char>) -> Seq<int>
    decreases entries.len(),
{
    if entries.len() == 0 {
        Seq::empty()
    } else {
        let i = entries.len() - 1;
        let rest = candidate_indices(entries.drop_last(), target, key);
        if i != target && entries[i].content_key@ != key {
            rest.push(i)
        } else {
            rest
        }
    }
}

/// A sound is never suggested for itself, nor for another copy of the same
/// recording: every candidate is an entry other than the target whose
/// content key differs. Nothing else is left out.
pub proof fn lemma_candidates_exclude_self_and_aliases(entries: Seq<Entry>, target: int, key: Seq<char>)
    ensures
        forall|k: int|
            0 <= k < candidate_indices(entries, target, key).len() ==> {
                let i = #[trigger] candidate_indices(entries, target, key)[k];
                &&& 0 <= i < entries.len()
                &&& i != target
                &&& entries[i].content_key@ != key
            },
        forall|i: int|
            0 <= i < entries.len() && i != target && (#[trigger] entries[i]).content_key@ != key
                ==> candidate_indices(entries, target, key).contains(i),
    decreases entries.len(),
{
    if entries.len() > 0 {
        let init = entries.drop_last();
        lemma_candidates_exclude_self_and_aliases(init, target, key);
        let rest = candidate_indices(init, target, key);
        let all = candidate_indices(entries, target, key);
        assert forall|k: int| 0 <= k < all.len() implies {
            let i = #[trigger] all[k];
            &&& 0 <= i < entries.len()
            &&& i != target
            &&& entries[i].content_key@ != key
        } by {
            if k < rest.len() {
                assert(all[k] == rest[k]);
                assert(entries[rest[k]] == init[rest[k]]);
            }
        }
        assert forall|i: int|
            0 <= i < entries.len() && i != target && (#[trigger] entries[i]).content_key@ != key implies all.contains(i) by {
            if i < entries.len() - 1 {
                assert(init[i] == entries[i]);
                let w = choose|w: int| 0 <= w < rest.len() && rest[w] == i;
                assert(all[w] == i);
            } else {
                assert(all[all.len() - 1] == i);
            }
        }
    }
}

pub fn candidates(entries: &Vec<Entry>, target: usize) -> (r: Vec<usize>)
    requires
        target < entries@.len(),
    ensures
        r@.map_values(|i: usize| i as int) == candidate_indices(
            entries@,
            target as int,
            entries@[target as int].content_key@,
        ),
{
    let mut r: Vec<usize> = Vec::new();
    let mut i: usize = 0;
    let ghost es = entries@;
    assert(es.take(0) =~= Seq::<Entry>::empty());
    while i < entries.len()
        invariant
            es == entries@,
            target < es.len(),
            i <= es.len(),
            r@.map_values(|i: usize| i as int) == candidate_indices(
                es.take(i as int),
                target as int,
                es[target as int].content_key@,
            ),
        decreases es.len() - i,
    {
        let ghost before = r@;
        proof {
            assert(es.take(i + 1).drop_last() =~= es.take(i as int));
            assert(es.take(i + 1)[i as int] == es[i as int]);
        }
        if i != target && entries[i].content_key != entries[target].content_key {
            r.push(i);
            assert(r@.map_values(|i: usize| i as int) =~= before.map_values(|i: usize| i as int).push(
                i as int,
            ));
        }
        i += 1;
    }
    assert(es.take(es.len() as int) =~= es);
    r
}

} // verus!
