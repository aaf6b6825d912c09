//! Decisions of a library scan: which files are audio, which can be skipped
//! as unchanged, and the tally of what happened.

use vstd::prelude::*;
use crate::text::{ascii_lower, ascii_lower_exec, chars_of};
use crate::cache::VERSION;

verus! {

/// Extensions scanned, compared ASCII-case-insensitively. mp4 and its
/// relatives are video containers, but the audio track decodes the same way
/// and clips are often filed as mp4.
pub open spec fn is_audio(ext: Seq<char>) -> bool {
    let l = ext.map_values(|c: char| ascii_lower(c));
    ||| l =~= seq!['w', 'a', 'v']
    ||| l =~= seq!['f', 'l', 'a', 'c']
    ||| l =~= seq!['m', 'p', '3']
    ||| l =~= seq!['o', 'g', 'g']
    ||| l =~= seq!['o', 'g', 'a']
    ||| l =~= seq!['o', 'p', 'u', 's']
    ||| l =~= seq!['m', '4', 'a']
    ||| l =~= seq!['a', 'a', 'c']
    ||| l =~= seq!['a', 'l', 'a', 'c']
    ||| l =~= seq!['m', 'p', '4']
    ||| l =~= seq!['m', '4', 'v']
    ||| l =~= seq!['m', 'o', 'v']
}

/// The extensions a scan indexes, lower-case.
pub open spec fn audio_exts() -> Seq<Seq<char>> {
    seq![
        seq!['w', 'a', 'v'],
        seq!['f', 'l', 'a', 'c'],
        seq!['m', 'p', '3'],
        seq!['o', 'g', 'g'],
        seq!['o', 'g', 'a'],
        seq!['o', 'p', 'u', 's'],
        seq!['m', '4', 'a'],
        seq!['a', 'a', 'c'],
        seq!['a', 'l', 'a', 'c'],
        seq!['m', 'p', '4'],
        seq!['m', '4', 'v'],
        seq!['m', 'o', 'v'],
    ]
}

/// A scan indexes a file exactly when its extension, lower-cased in ASCII,
/// is one of the twelve audio extensions; so the answer never depends on
/// ASCII case, and each of the twelve is accepted in any case.
pub proof fn lemma_audio_exts_in_any_case(ext: Seq<char>)
    ensures
        is_audio(ext) <==> audio_exts().contains(ext.map_values(|c: char| ascii_lower(c))),
        forall|k: int| 0 <= k < audio_exts().len() ==> is_audio(#[trigger] audio_exts()[k]),
{
    let l = ext.map_values(|c: char| ascii_lower(c));
    let e = audio_exts();
    if is_audio(ext) {
        if l =~= e[0] { assert(e[0] == l); } else if l =~= e[1] { assert(e[1] == l); }
        else if l =~= e[2] { assert(e[2] == l); } else if l =~= e[3] { assert(e[3] == l); }
        else if l =~= e[4] { assert(e[4] == l); } else if l =~= e[5] { assert(e[5] == l); }
        else if l =~= e[6] { assert(e[6] == l); } else if l =~= e[7] { assert(e[7] == l); }
        else if l =~= e[8] { assert(e[8] == l); } else if l =~= e[9] { assert(e[9] == l); }
        else if l =~= e[10] { assert(e[10] == l); } else { assert(e[11] =~= l); }
    }
    if e.contains(l) {
        let k = choose|k: int| 0 <= k < e.len() && e[k] == l;
        assert(l == e[k]);
    }
    assert forall|k: int| 0 <= k < e.len() implies is_audio(#[trigger] e[k]) by {
        let w = e[k];
        assert(w.map_values(|c: char| ascii_lower(c)) =~= w);
    }
}

fn word_is(l: &Vec<char>, w: &str) -> (r: bool)
    ensures
        r == (l@ == w@),
{
    let x = chars_of(w);
    if x.len() != l.len() {
        return false;
    }
    let mut i: usize = 0;
    while i < x.len()
        invariant
            x@ == w@,
            x@.len() == l@.len(),
            i <= x@.len(),
            forall|j: int| 0 <= j < i ==> x@[j] == l@[j],
        decreases x@.len() - i,
    {
        if x[i] != l[i] {
            return false;
        }
        i += 1;
    }
    assert(x@ =~= l@);
    true
}

/// Whether a file with this extension is scanned.
pub fn is_audio_ext(ext: &str) -> (r: bool)
    ensures
        r == is_audio(ext@),
{
    let cs = chars_of(ext);
    let mut l: Vec<char> = Vec::new();
    let mut i: usize = 0;
    while i < cs.len()
        invariant
            cs@ == ext@,
            i <= cs@.len(),
            l@ == cs@.take(i as int).map_values(|c: char| ascii_lower(c)),
        decreases cs@.len() - i,
    {
        l.push(ascii_lower_exec(cs[i]));
        assert(cs@.take(i + 1).map_values(|c: char| ascii_lower(c)) =~= cs@.take(i as int).map_values(
            |c: char| ascii_lower(c),
        ).push(ascii_lower(cs@[i as int])));
        i += 1;
    }
    assert(cs@.take(cs@.len() as int) =~= cs@);
    proof {
        reveal_strlit("wav");
        assert("wav"@ =~= seq!['w', 'a', 'v']);
        reveal_strlit("flac");
        assert("flac"@ =~= seq!['f', 'l', 'a', 'c']);
        reveal_strlit("mp3");
        assert("mp3"@ =~= seq!['m', 'p', '3']);
        reveal_strlit("ogg");
        assert("ogg"@ =~= seq!['o', 'g', 'g']);
        reveal_strlit("oga");
        assert("oga"@ =~= seq!['o', 'g', 'a']);
        reveal_strlit("opus");
        assert("opus"@ =~= seq!['o', 'p', 'u', 's']);
        reveal_strlit("m4a");
        assert("m4a"@ =~= seq!['m', '4', 'a']);
        reveal_strlit("aac");
        assert("aac"@ =~= seq!['a', 'a', 'c']);
        reveal_strlit("alac");
        assert("alac"@ =~= seq!['a', 'l', 'a', 'c']);
        reveal_strlit("mp4");
        assert("mp4"@ =~= seq!['m', 'p', '4']);
        reveal_strlit("m4v");
        assert("m4v"@ =~= seq!['m', '4', 'v']);
        reveal_strlit("mov");
        assert("mov"@ =~= seq!['m', 'o', 'v']);
    }
    let r = word_is(&l, "wav") || word_is(&l, "flac") || word_is(&l, "mp3") || word_is(&l, "ogg")
        || word_is(&l, "oga") || word_is(&l, "opus") || word_is(&l, "m4a") || word_is(&l, "aac")
        || word_is(&l, "alac") || word_is(&l, "mp4") || word_is(&l, "m4v") || word_is(&l, "mov");
    r
}

/// A file whose size, modification time and cache version all match what
/// the index holds is unchanged and need not be analysed again. A cache
/// version bump forces re-analysis even of untouched files, or stale blobs
/// would survive forever.
pub fn should_skip(known: Option<(u64, i64, u16)>, size: u64, mtime: i64) -> (r: bool)
    ensures
        r == (known == Some((size, mtime, VERSION))),
{
    match known {
        Some((s, m, rev)) => s == size && m == mtime && rev == VERSION,
        None => false,
    }
}

/// What became of one scanned file.
pub enum FileOutcome {
    /// Unchanged since the last scan, or the scan was cancelled first.
    Skipped,
    /// Decoded and analysed.
    Analysed,
    /// Recorded, but it did not decode.
    Undecodable,
    /// No row at all: (path, reason). Retried on every scan.
    Failed(String, String),
}

#[derive(Debug, Default, Clone)]
pub struct ScanStats {
    pub total: usize,
    pub analysed: usize,
    pub skipped: usize,
    pub failed: usize,
    pub cancelled: bool,
    pub elapsed_ms: u128,
    /// (path, reason) for files that produced no row at all. These are
    /// retried on every scan, so they must be surfaced rather than silently
    /// counted.
    pub errors: Vec<(String, String)>,
}

pub struct Progress {
    pub done: usize,
    pub total: usize,
    pub path: String,
}

impl ScanStats {
    /// Counts one file's outcome.
    pub fn record(&mut self, o: FileOutcome)
        requires
            old(self).analysed + old(self).skipped + old(self).failed < usize::MAX,
        ensures
            final(self).total == old(self).total,
            final(self).cancelled == old(self).cancelled,
            final(self).elapsed_ms == old(self).elapsed_ms,
            final(self).analysed + final(self).skipped + final(self).failed == old(self).analysed
                + old(self).skipped + old(self).failed + 1,
            match o {
                FileOutcome::Skipped => final(self).skipped == old(self).skipped + 1
                    && final(self).analysed == old(self).analysed && final(self).errors@ == old(self).errors@,
                FileOutcome::Analysed => final(self).analysed == old(self).analysed + 1
                    && final(self).skipped == old(self).skipped && final(self).errors@ == old(self).errors@,
                FileOutcome::Undecodable => final(self).failed == old(self).failed + 1
                    && final(self).skipped == old(self).skipped && final(self).errors@ == old(self).errors@,
                FileOutcome::Failed(p, why) => final(self).failed == old(self).failed + 1
                    && final(self).skipped == old(self).skipped && final(self).errors@ == old(self).errors@.push(
                    (p, why),
                ),
            },
    {
        match o {
            FileOutcome::Skipped => {
                self.skipped += 1;
            },
            FileOutcome::Analysed => {
                self.analysed += 1;
            },
            FileOutcome::Undecodable => {
                self.failed += 1;
            },
            FileOutcome::Failed(p, why) => {
                self.failed += 1;
                self.errors.push((p, why));
            },
        }
    }
}

} // verus!
