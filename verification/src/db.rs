//! The parts of the library index that are decided rather than stored:
//! timestamps, the folder of a file, tag normalisation, and the per-sound
//! record that packs carry.

use vstd::prelude::*;
use crate::text::{lowercase, to_lower, trim, trimmed};
use crate::text::chars_of;
use crate::text::string_of;

verus! {

#[verifier::external_type_specification]
#[verifier::external_body]
pub struct ExSystemTime(std::time::SystemTime);

/// `SystemTime::now`: the wall clock, which no contract can predict.
#[verifier::external_body]
fn clock_now() -> std::time::SystemTime {
    std::time::SystemTime::now()
}

/// `SystemTime::duration_since(UNIX_EPOCH)`, as whole seconds and total
/// nanoseconds; `None` for a clock set before 1970. Of the two values it only
/// states what `Duration` documents: the seconds are the nanoseconds' whole part.
#[verifier::external_body]
fn since_epoch(t: std::time::SystemTime) -> (r: Option<(u64, u128)>)
    ensures
        r matches Some((s, n)) ==> s == n / 1_000_000_000,
{
    t.duration_since(std::time::UNIX_EPOCH).ok().map(|d| (d.as_secs(), d.as_nanos()))
}

/// Seconds since the Unix epoch, or 0 when the clock is before it.
pub fn now() -> (r: i64) {
    match since_epoch(clock_now()) {
        Some((s, _)) => s as i64,
        None => 0,
    }
}

/// Nanoseconds since the Unix epoch, or 0 when the clock is before it.
pub fn now_nanos() -> (r: u128) {
    match since_epoch(clock_now()) {
        Some((_, n)) => n,
        None => 0,
    }
}

/// The folder of a relative path: everything before its last `/` or `\`,
/// or nothing when it has neither.
pub open spec fn folder_of(rel: Seq<char>) -> Seq<char>
    decreases rel.len(),
{
    if rel.len() == 0 {
        Seq::empty()
    } else if rel.last() == '/' || rel.last() == '\\' {
        rel.drop_last()
    } else {
        folder_of(rel.drop_last())
    }
}

pub fn folder(rel: &str) -> (r: String)
    ensures
        r@ == folder_of(rel@),
{
    let cs = chars_of(rel);
    let mut j = cs.len();
    assert(cs@.take(j as int) =~= cs@);
    while j > 0 && cs[j - 1] != '/' && cs[j - 1] != '\\'
        invariant
            j <= cs@.len(),
            cs@ == rel@,
            folder_of(rel@) == folder_of(cs@.take(j as int)),
        decreases j,
    {
        assert(cs@.take(j as int).drop_last() =~= cs@.take(j - 1));
        j -= 1;
    }
    if j == 0 {
        String::new()
    } else {
        assert(cs@.take(j as int).drop_last() =~= cs@.subrange(0, j - 1));
        string_of(&cs, 0, j - 1)
    }
}

/// A tag as stored: trimmed and lower-cased; `None` when nothing is left.
pub open spec fn tag_form(tag: Seq<char>) -> Option<Seq<char>> {
    let t = lowercase(trim(tag));
    if t.len() == 0 {
        None
    } else {
        Some(t)
    }
}

pub fn normalise_tag(tag: &str) -> (r: Option<String>)
    ensures
        match r {
            Some(t) => tag_form(tag@) == Some(t@),
            None => tag_form(tag@) is None,
        },
{
    let t = trimmed(tag);
    let l = to_lower(t.as_str());
    if l.as_str().is_empty() {
        None
    } else {
        Some(l)
    }
}

/// One sound's user-authored metadata, keyed by content so that it survives
/// renames and moves; what a pack carries.
pub struct PackEntry {
    pub content_key: String,
    pub filename: String,
    pub size: u64,
    pub tags: Vec<String>,
    pub favorite: bool,
}

} // verus!
