//! Filename rules for renaming sounds on disk, shared by Windows and POSIX
//! machines, and the decisions of a rename and of its undo.

use vstd::prelude::*;
use vstd::string::*;
use crate::paths::{file_name, file_stem_of, join, join_path, stem_of};
use crate::text::{ascii_upper, ascii_upper_exec, chars_of, digits, format_radix, push_char, string_of, trim, trim_bounds, trim_end, trim_start};

verus! {

/// Longest stem accepted; leaves headroom under the traditional 260-char
/// Windows path limit.
pub const MAX_STEM: usize = 120;

/// Why a proposed stem is refused.
#[derive(Debug, PartialEq, Eq)]
pub enum Invalid {
    Empty,
    TooLong,
    Reserved,
    /// The offending characters, each once per run, separated by spaces.
    IllegalChars(String),
}

/// Mathematical form of [`Invalid`].
pub enum InvalidView {
    Empty,
    TooLong,
    Reserved,
    IllegalChars(Seq<char>),
}

impl View for Invalid {
    type V = InvalidView;

    open spec fn view(&self) -> InvalidView {
        match self {
            Invalid::Empty => InvalidView::Empty,
            Invalid::TooLong => InvalidView::TooLong,
            Invalid::Reserved => InvalidView::Reserved,
            Invalid::IllegalChars(s) => InvalidView::IllegalChars(s@),
        }
    }
}

/// Illegal in a Windows filename (`/` is also illegal on POSIX).
pub open spec fn is_illegal(c: char) -> bool {
    c == '<' || c == '>' || c == ':' || c == '"' || c == '/' || c == '\\' || c == '|' || c
        == '?' || c == '*'
}

/// Control characters, below U+0020.
pub open spec fn is_control(c: char) -> bool {
    (c as u32) < 0x20
}

pub open spec fn is_bad(c: char) -> bool {
    is_illegal(c) || is_control(c)
}

fn is_illegal_exec(c: char) -> (r: bool)
    ensures
        r == is_illegal(c),
{
    c == '<' || c == '>' || c == ':' || c == '"' || c == '/' || c == '\\' || c == '|' || c
        == '?' || c == '*'
}

fn is_control_exec(c: char) -> (r: bool)
    ensures
        r == is_control(c),
{
    (c as u32) < 0x20
}

/// How a bad character is reported: `None` stands for every control character.
pub open spec fn class_of(c: char) -> Option<char> {
    if is_control(c) {
        None
    } else {
        Some(c)
    }
}

/// Classes of the bad characters of `s`, in order.
pub open spec fn bad_classes(s: Seq<char>) -> Seq<Option<char>>
    decreases s.len(),
{
    if s.len() == 0 {
        Seq::empty()
    } else if is_bad(s.last()) {
        bad_classes(s.drop_last()).push(class_of(s.last()))
    } else {
        bad_classes(s.drop_last())
    }
}

/// `Vec::dedup`: consecutive equal elements collapsed to one.
pub open spec fn dedup<T>(s: Seq<T>) -> Seq<T>
    decreases s.len(),
{
    if s.len() == 0 {
        s
    } else {
        let d = dedup(s.drop_last());
        if d.len() > 0 && d.last() == s.last() {
            d
        } else {
            d.push(s.last())
        }
    }
}

pub open spec fn control_label() -> Seq<char> {
    seq!['c', 'o', 'n', 't', 'r', 'o', 'l', ' ', 'c', 'h', 'a', 'r', 'a', 'c', 't', 'e', 'r', 's']
}

pub open spec fn label(c: Option<char>) -> Seq<char> {
    match c {
        None => control_label(),
        Some(x) => seq![x],
    }
}

/// Labels joined by single spaces.
pub open spec fn joined(s: Seq<Option<char>>) -> Seq<char>
    decreases s.len(),
{
    if s.len() == 0 {
        Seq::empty()
    } else if s.len() == 1 {
        label(s[0])
    } else {
        joined(s.drop_last()) + seq![' '] + label(s.last())
    }
}

/// The part of a name before its first '.', as `split('.').next()` gives it.
pub open spec fn base_name(t: Seq<char>) -> Seq<char>
    decreases t.len(),
{
    if t.len() == 0 || t[0] == '.' {
        Seq::empty()
    } else {
        seq![t[0]] + base_name(t.drop_first())
    }
}

/// Windows device names: CON, PRN, AUX, NUL, COM1-COM9, LPT1-LPT9, in any case.
pub open spec fn is_reserved(base: Seq<char>) -> bool {
    let u = base.map_values(|c: char| ascii_upper(c));
    ||| u =~= seq!['C', 'O', 'N']
    ||| u =~= seq!['P', 'R', 'N']
    ||| u =~= seq!['A', 'U', 'X']
    ||| u =~= seq!['N', 'U', 'L']
    ||| (u.len() == 4 && (u.take(3) =~= seq!['C', 'O', 'M'] || u.take(3) =~= seq!['L', 'P', 'T'])
        && '1' <= u[3] && u[3] <= '9')
}

/// The verdict on a stem: `None` when it is acceptable.
pub open spec fn validation(stem: Seq<char>) -> Option<InvalidView> {
    let t = trim(stem);
    if t.len() == 0 {
        Some(InvalidView::Empty)
    } else if t.len() > MAX_STEM {
        Some(InvalidView::TooLong)
    } else if bad_classes(t).len() > 0 {
        Some(InvalidView::IllegalChars(joined(dedup(bad_classes(t)))))
    } else if is_reserved(base_name(t)) {
        Some(InvalidView::Reserved)
    } else {
        None
    }
}

proof fn lemma_dedup_last<T>(s: Seq<T>)
    ensures
        (dedup(s).len() > 0) == (s.len() > 0),
        s.len() > 0 ==> dedup(s).last() == s.last(),
    decreases s.len(),
{
    if s.len() > 0 {
        lemma_dedup_last(s.drop_last());
    }
}

proof fn lemma_base_name(t: Seq<char>, k: int)
    requires
        0 <= k <= t.len(),
        forall|j: int| 0 <= j < k ==> t[j] != '.',
        k == t.len() || t[k] == '.',
    ensures
        base_name(t) == t.take(k),
    decreases t.len(),
{
    if k == 0 {
        assert(t.take(0) =~= Seq::<char>::empty());
    } else {
        lemma_base_name(t.drop_first(), k - 1);
        assert(t.take(k) =~= seq![t[0]] + t.drop_first().take(k - 1));
    }
}

fn reserved_exec(u: &Vec<char>) -> (r: bool)
    ensures
        r == (u@ =~= seq!['C', 'O', 'N'] || u@ =~= seq!['P', 'R', 'N'] || u@ =~= seq!['A', 'U', 'X']
            || u@ =~= seq!['N', 'U', 'L'] || (u@.len() == 4 && (u@.take(3) =~= seq!['C', 'O', 'M']
            || u@.take(3) =~= seq!['L', 'P', 'T']) && '1' <= u@[3] && u@[3] <= '9')),
{
    if u.len() == 3 {
        let (a, b, c) = (u[0], u[1], u[2]);
        (a == 'C' && b == 'O' && c == 'N') || (a == 'P' && b == 'R' && c == 'N') || (a == 'A' && b
            == 'U' && c == 'X') || (a == 'N' && b == 'U' && c == 'L')
    } else if u.len() == 4 {
        let (a, b, c, d) = (u[0], u[1], u[2], u[3]);
        ((a == 'C' && b == 'O' && c == 'M') || (a == 'L' && b == 'P' && c == 'T')) && '1' <= d && d
            <= '9'
    } else {
        false
    }
}

/// Validates a filename stem, i.e. a name without its extension.
pub fn validate(stem: &str) -> (r: Result<(), Invalid>)
    ensures
        match r {
            Ok(()) => validation(stem@) is None,
            Err(e) => validation(stem@) == Some(e@),
        },
{
    let cs = chars_of(stem);
    let (a, b) = trim_bounds(&cs);
    let ghost t = trim(stem@);
    if a == b {
        return Err(Invalid::Empty);
    }
    if b - a > MAX_STEM {
        return Err(Invalid::TooLong);
    }
    // Bad characters, reported once per run.
    let mut out = String::new();
    let mut last: Option<Option<char>> = None;
    let mut i = a;
    assert(t.take(0) =~= Seq::<char>::empty());
    while i < b
        invariant
            a <= i <= b <= cs@.len(),
            t == cs@.subrange(a as int, b as int),
            out@ == joined(dedup(bad_classes(t.take(i - a)))),
            last is None <==> bad_classes(t.take(i - a)).len() == 0,
            last matches Some(l) ==> l == bad_classes(t.take(i - a)).last(),
        decreases b - i,
    {
        let c = cs[i];
        proof {
            assert(t.take(i + 1 - a).drop_last() =~= t.take(i - a));
            assert(t.take(i + 1 - a).last() == c);
            lemma_dedup_last(bad_classes(t.take(i - a)));
        }
        if is_illegal_exec(c) || is_control_exec(c) {
            let class = if is_control_exec(c) {
                None
            } else {
                Some(c)
            };
            let same = match last {
                Some(l) => l == class,
                None => false,
            };
            if !same {
                if last.is_some() {
                    out.append(" ");
                }
                match class {
                    None => {
                        out.append("control characters");
                    },
                    Some(x) => {
                        push_char(&mut out, x);
                    },
                }
                proof {
                    reveal_strlit(" ");
                    reveal_strlit("control characters");
                    let bc = bad_classes(t.take(i - a));
                    let bc2 = bad_classes(t.take(i + 1 - a));
                    assert(bc2 == bc.push(class));
                    assert(bc2.drop_last() =~= bc);
                    let p = dedup(bc);
                    let q = dedup(bc2);
                    assert(q == p.push(class));
                    if p.len() > 0 {
                        assert(q.drop_last() =~= p);
                    } else {
                        assert(q =~= seq![class]);
                    }
                }
            }
            proof {
                let bc = bad_classes(t.take(i - a));
                let bc2 = bad_classes(t.take(i + 1 - a));
                assert(bc2 == bc.push(class));
                assert(bc2.drop_last() =~= bc);
            }
            last = Some(class);
        }
        i += 1;
    }
    assert(t.take(b - a) =~= t);
    if last.is_some() {
        return Err(Invalid::IllegalChars(out));
    }
    // Windows resolves CON.wav to the console device, not a file.
    let mut k = a;
    while k < b && cs[k] != '.'
        invariant
            a <= k <= b <= cs@.len(),
            t == cs@.subrange(a as int, b as int),
            forall|j: int| 0 <= j < k - a ==> t[j] != '.',
        decreases b - k,
    {
        k += 1;
    }
    proof {
        lemma_base_name(t, k - a);
    }
    let mut u: Vec<char> = Vec::new();
    let mut j = a;
    while j < k
        invariant
            a <= j <= k <= b <= cs@.len(),
            t == cs@.subrange(a as int, b as int),
            u@ == t.take(k - a).take(j - a).map_values(|c: char| ascii_upper(c)),
        decreases k - j,
    {
        u.push(ascii_upper_exec(cs[j]));
        assert(t.take(k - a).take(j + 1 - a).map_values(|c: char| ascii_upper(c)) =~= t.take(
            k - a,
        ).take(j - a).map_values(|c: char| ascii_upper(c)).push(ascii_upper(cs@[j as int])));
        j += 1;
    }
    assert(t.take(k - a).take(k - a) =~= t.take(k - a));
    if reserved_exec(&u) {
        return Err(Invalid::Reserved);
    }
    Ok(())
}


impl Invalid {
    /// The sentence shown to the user; what `Display` prints for this error.
    pub fn message(&self) -> (r: String)
        ensures
            r@ == match self@ {
                InvalidView::Empty => "name cannot be empty"@,
                InvalidView::TooLong => "name is longer than 120 characters"@,
                InvalidView::Reserved => "that name is reserved by Windows"@,
                InvalidView::IllegalChars(c) => "name cannot contain "@ + c,
            },
    {
        match self {
            Invalid::Empty => String::from_str("name cannot be empty"),
            Invalid::TooLong => String::from_str("name is longer than 120 characters"),
            Invalid::Reserved => String::from_str("that name is reserved by Windows"),
            Invalid::IllegalChars(c) => {
                let mut r = String::from_str("name cannot contain ");
                r.append(c.as_str());
                r
            },
        }
    }
}

/// A character as `sanitise` writes it: bad ones become '_'.
pub open spec fn clean_char(c: char) -> char {
    if is_bad(c) {
        '_'
    } else {
        c
    }
}

/// `trim_end_matches(['.', ' '])`.
pub open spec fn trim_end_dots_spaces(s: Seq<char>) -> Seq<char>
    decreases s.len(),
{
    if s.len() > 0 && (s.last() == '.' || s.last() == ' ') {
        trim_end_dots_spaces(s.drop_last())
    } else {
        s
    }
}

/// What `sanitise` makes of a stem.
/// Cutting to `MAX_STEM` can expose a dot or space at the end again, so the
/// trailing ones are trimmed once more after the cut.
pub open spec fn sanitised(stem: Seq<char>) -> Seq<char> {
    let t = trim_end_dots_spaces(trim(stem.map_values(|c: char| clean_char(c))));
    if t.len() <= MAX_STEM {
        t
    } else {
        trim_end_dots_spaces(t.take(MAX_STEM as int))
    }
}

/// `trim_end_dots_spaces` leaves no dot or space at the end, keeps a prefix
/// and never grows.
proof fn lemma_trim_dots_end(s: Seq<char>)
    ensures
        trim_end_dots_spaces(s).len() <= s.len(),
        trim_end_dots_spaces(s) == s.take(trim_end_dots_spaces(s).len() as int),
        trim_end_dots_spaces(s).len() > 0 ==> trim_end_dots_spaces(s).last() != '.'
            && trim_end_dots_spaces(s).last() != ' ',
    decreases s.len(),
{
    if s.len() > 0 && (s.last() == '.' || s.last() == ' ') {
        lemma_trim_dots_end(s.drop_last());
        let r = trim_end_dots_spaces(s.drop_last());
        assert(s.drop_last().take(r.len() as int) =~= s.take(r.len() as int));
    } else {
        assert(s.take(s.len() as int) =~= s);
    }
}

/// Best-effort cleanup for a proposed name, used to prefill the rename box.
///
/// Windows silently strips trailing dots and spaces, which would make the name
/// on disk differ from the one shown, so they are removed here.
pub fn sanitise(stem: &str) -> (r: String)
    ensures
        r@ == sanitised(stem@),
        r@.len() > 0 ==> r@.last() != '.' && r@.last() != ' ',
{
    let cs = chars_of(stem);
    let mut cleaned: Vec<char> = Vec::new();
    let mut i: usize = 0;
    while i < cs.len()
        invariant
            i <= cs@.len(),
            cleaned@ == cs@.take(i as int).map_values(|c: char| clean_char(c)),
        decreases cs@.len() - i,
    {
        let c = cs[i];
        let d = if is_illegal_exec(c) || is_control_exec(c) {
            '_'
        } else {
            c
        };
        cleaned.push(d);
        assert(cs@.take(i + 1).map_values(|c: char| clean_char(c)) =~= cs@.take(i as int).map_values(
            |c: char| clean_char(c),
        ).push(clean_char(c)));
        i += 1;
    }
    assert(cs@.take(cs@.len() as int) =~= cs@);
    let (a, b0) = trim_bounds(&cleaned);
    let ghost t = cleaned@.subrange(a as int, b0 as int);
    let mut b = b0;
    assert(t.take(t.len() as int) =~= t);
    while b > a && (cleaned[b - 1] == '.' || cleaned[b - 1] == ' ')
        invariant
            a <= b <= b0 <= cleaned@.len(),
            t == cleaned@.subrange(a as int, b0 as int),
            trim_end_dots_spaces(t) == trim_end_dots_spaces(t.take(b - a)),
        decreases b,
    {
        assert(t.take(b - a).drop_last() =~= t.take(b - 1 - a));
        b -= 1;
    }
    assert(t.take(b - a) =~= cleaned@.subrange(a as int, b as int));
    proof {
        lemma_trim_dots_end(t);
    }
    if b - a <= MAX_STEM {
        return string_of(&cleaned, a, b);
    }
    let ghost u = cleaned@.subrange(a as int, (a + MAX_STEM) as int);
    assert(cleaned@.subrange(a as int, b as int).take(MAX_STEM as int) =~= u);
    let mut e = a + MAX_STEM;
    assert(u.take(u.len() as int) =~= u);
    while e > a && (cleaned[e - 1] == '.' || cleaned[e - 1] == ' ')
        invariant
            a <= e <= a + MAX_STEM <= cleaned@.len(),
            u == cleaned@.subrange(a as int, (a + MAX_STEM) as int),
            trim_end_dots_spaces(u) == trim_end_dots_spaces(u.take(e - a)),
        decreases e,
    {
        assert(u.take(e - a).drop_last() =~= u.take(e - 1 - a));
        e -= 1;
    }
    assert(u.take(e - a) =~= cleaned@.subrange(a as int, e as int));
    proof {
        lemma_trim_dots_end(u);
    }
    string_of(&cleaned, a, e)
}


/// No character that validation rejects.
pub open spec fn clean(s: Seq<char>) -> bool {
    forall|k: int| 0 <= k < s.len() ==> !is_bad(#[trigger] s[k])
}

proof fn lemma_clean_no_bad_classes(s: Seq<char>)
    requires
        clean(s),
    ensures
        bad_classes(s).len() == 0,
    decreases s.len(),
{
    if s.len() > 0 {
        assert(!is_bad(s[s.len() - 1]));
        lemma_clean_no_bad_classes(s.drop_last());
    }
}

proof fn lemma_clean_trim_start(s: Seq<char>)
    requires
        clean(s),
    ensures
        clean(trim_start(s)),
        trim_start(s).len() <= s.len(),
    decreases s.len(),
{
    if s.len() > 0 && crate::text::is_ws(s[0]) {
        let t = s.drop_first();
        assert forall|k: int| 0 <= k < t.len() implies !is_bad(#[trigger] t[k]) by {
            assert(t[k] == s[k + 1]);
        }
        lemma_clean_trim_start(t);
    }
}

proof fn lemma_clean_trim_end(s: Seq<char>)
    requires
        clean(s),
    ensures
        clean(trim_end(s)),
        trim_end(s).len() <= s.len(),
    decreases s.len(),
{
    if s.len() > 0 && crate::text::is_ws(s.last()) {
        let t = s.drop_last();
        assert forall|k: int| 0 <= k < t.len() implies !is_bad(#[trigger] t[k]) by {
            assert(t[k] == s[k]);
        }
        lemma_clean_trim_end(t);
    }
}

proof fn lemma_clean_trim_dots(s: Seq<char>)
    requires
        clean(s),
    ensures
        clean(trim_end_dots_spaces(s)),
    decreases s.len(),
{
    if s.len() > 0 && (s.last() == '.' || s.last() == ' ') {
        let t = s.drop_last();
        assert forall|k: int| 0 <= k < t.len() implies !is_bad(#[trigger] t[k]) by {
            assert(t[k] == s[k]);
        }
        lemma_clean_trim_dots(t);
    }
}

/// What `sanitise` returns never fails validation for its characters or its
/// length: it can still be empty or a reserved device name.
pub proof fn lemma_sanitised_passes_character_and_length_rules(stem: Seq<char>)
    ensures
        !(validation(sanitised(stem)) matches Some(InvalidView::IllegalChars(_))),
        !(validation(sanitised(stem)) matches Some(InvalidView::TooLong)),
        sanitised(stem).len() > 0 ==> sanitised(stem).last() != '.' && sanitised(stem).last() != ' ',
{
    let m = stem.map_values(|c: char| clean_char(c));
    assert(clean(m)) by {
        assert forall|k: int| 0 <= k < m.len() implies !is_bad(#[trigger] m[k]) by {
            assert(m[k] == clean_char(stem[k]));
        }
    }
    lemma_clean_trim_start(m);
    lemma_clean_trim_end(trim_start(m));
    let t = trim_end_dots_spaces(trim(m));
    lemma_clean_trim_dots(trim(m));
    let r = sanitised(stem);
    assert(clean(r)) by {
        if t.len() > MAX_STEM {
            let u = t.take(MAX_STEM as int);
            assert forall|k: int| 0 <= k < u.len() implies !is_bad(#[trigger] u[k]) by {
                assert(u[k] == t[k]);
            }
            lemma_clean_trim_dots(u);
        }
    }
    assert(r.len() <= MAX_STEM) by {
        if t.len() > MAX_STEM {
            lemma_trim_dots_end(t.take(MAX_STEM as int));
        }
    }
    assert(r == if t.len() <= MAX_STEM {
        t
    } else {
        trim_end_dots_spaces(t.take(MAX_STEM as int))
    });
    lemma_trim_dots_end(trim(m));
    if t.len() > MAX_STEM {
        lemma_trim_dots_end(t.take(MAX_STEM as int));
    }
    lemma_clean_trim_start(r);
    lemma_clean_trim_end(trim_start(r));
    lemma_clean_no_bad_classes(trim(r));
}

proof fn lemma_trim_start_suffix(s: Seq<char>)
    ensures
        trim_start(s).len() <= s.len(),
        trim_start(s) == s.skip(s.len() - trim_start(s).len()),
    decreases s.len(),
{
    if s.len() > 0 && crate::text::is_ws(s[0]) {
        lemma_trim_start_suffix(s.drop_first());
        let r = trim_start(s.drop_first());
        assert(s.drop_first().skip(s.drop_first().len() - r.len()) =~= s.skip(s.len() - r.len()));
    } else {
        assert(s.skip(0) =~= s);
    }
}

proof fn lemma_trim_end_prefix(s: Seq<char>)
    ensures
        trim_end(s).len() <= s.len(),
        trim_end(s) == s.take(trim_end(s).len() as int),
    decreases s.len(),
{
    if s.len() > 0 && crate::text::is_ws(s.last()) {
        lemma_trim_end_prefix(s.drop_last());
        let r = trim_end(s.drop_last());
        assert(s.drop_last().take(r.len() as int) =~= s.take(r.len() as int));
    } else {
        assert(s.take(s.len() as int) =~= s);
    }
}

/// `sanitise` keeps a run of the stem's characters, in place, and changes
/// only the illegal and control characters of that run, each to '_'.
/// The result is where that run starts in the stem.
pub proof fn lemma_sanitised_keeps_other_characters(stem: Seq<char>) -> (a: int)
    ensures
        0 <= a,
        a + sanitised(stem).len() <= stem.len(),
        forall|k: int|
            0 <= k < sanitised(stem).len() ==> #[trigger] sanitised(stem)[k] == (if is_bad(stem[a + k]) {
                '_'
            } else {
                stem[a + k]
            }),
{
    let m = stem.map_values(|c: char| clean_char(c));
    lemma_trim_start_suffix(m);
    let ts = trim_start(m);
    let d = m.len() - ts.len();
    lemma_trim_end_prefix(ts);
    let t0 = trim(m);
    assert(t0 == trim_end(ts));
    lemma_trim_dots_end(t0);
    let t = trim_end_dots_spaces(t0);
    let r = sanitised(stem);
    assert(r == if t.len() <= MAX_STEM {
        t
    } else {
        trim_end_dots_spaces(t.take(MAX_STEM as int))
    });
    if t.len() > MAX_STEM {
        lemma_trim_dots_end(t.take(MAX_STEM as int));
    }
    assert(r.len() <= t.len());
    assert forall|k: int| 0 <= k < r.len() implies #[trigger] r[k] == (if is_bad(stem[d + k]) {
        '_'
    } else {
        stem[d + k]
    }) by {
        if t.len() > MAX_STEM {
            let u = t.take(MAX_STEM as int);
            assert(r == u.take(r.len() as int));
            assert(r[k] == u[k]);
        } else {
            assert(r[k] == t[k]);
        }
        assert(t[k] == t0[k]);
        assert(t0[k] == ts[k]);
        assert(ts[k] == m[d + k]);
    }
    d
}

/// A stem that is already acceptable as it stands (no illegal or control
/// character, no surrounding whitespace, no trailing dot or space, at most
/// `MAX_STEM` long) comes back from `sanitise` unchanged.
pub proof fn lemma_sanitised_keeps_acceptable_stems(stem: Seq<char>)
    requires
        forall|k: int| 0 <= k < stem.len() ==> !is_bad(#[trigger] stem[k]),
        trim(stem) == stem,
        stem.len() > 0 ==> stem.last() != '.' && stem.last() != ' ',
        stem.len() <= MAX_STEM,
    ensures
        sanitised(stem) == stem,
{
    let m = stem.map_values(|c: char| clean_char(c));
    assert(m =~= stem);
    if stem.len() > 0 {
        assert(stem.last() == stem[stem.len() - 1]);
    }
    assert(trim_end_dots_spaces(stem) == stem);
}

/// The file name tried for attempt `n` of a rename: the new stem, then
/// " (n)" for every attempt but the first, then the old extension if any.
pub open spec fn name_for(stem: Seq<char>, ext: Seq<char>, n: u32) -> Seq<char> {
    let base = if n == 0 {
        trim(stem)
    } else {
        trim(stem) + seq![' ', '('] + digits(n as nat, 10) + seq![')']
    };
    if ext.len() == 0 {
        base
    } else {
        base + seq!['.'] + ext
    }
}

/// The path tried for attempt `n`: `name_for` inside `dir`.
pub fn candidate_path(dir: &str, stem: &str, ext: &str, n: u32) -> (r: String)
    ensures
        r@ == join(dir@, name_for(stem@, ext@, n)),
{
    proof {
        reveal_strlit(" (");
        reveal_strlit(")");
        reveal_strlit(".");
    }
    let cs = chars_of(stem);
    let (a, b) = trim_bounds(&cs);
    let mut name = string_of(&cs, a, b);
    if n != 0 {
        name.append(" (");
        let d = format_radix(n as u128, 10);
        name.append(d.as_str());
        name.append(")");
    }
    if !ext.is_empty() {
        name.append(".");
        name.append(ext);
    }
    assert(name@ =~= name_for(stem@, ext@, n));
    join_path(dir, name.as_str())
}

/// What to do after probing the candidate of attempt `n`.
#[derive(Debug, PartialEq, Eq)]
pub enum Probe {
    /// The requested name is the file's own: there is nothing to rename.
    Unchanged,
    /// Rename onto the candidate of this attempt: nothing is there.
    RenameTo(u32),
    /// Probe the candidate of this attempt next.
    Check(u32),
    /// The requested name is taken and suffixing was not allowed.
    AlreadyExists,
    /// Every suffix up to 999 is taken.
    TooMany,
}

/// The collision rule of a rename. Attempt 0 is the requested name; if that
/// is the file's own path (`is_source`) nothing is done. When it is taken by
/// another file and `suffix_on_collision` holds, attempts 2, 3, ... 999
/// follow, so an existing sound is never overwritten.
pub fn next_probe(n: u32, is_source: bool, exists: bool, suffix_on_collision: bool) -> (r: Probe)
    requires
        n == 0 || 2 <= n <= 999,
    ensures
        n == 0 && is_source ==> r == Probe::Unchanged,
        !(n == 0 && is_source) ==> {
            &&& !exists ==> r == Probe::RenameTo(n)
            &&& exists && n == 0 && !suffix_on_collision ==> r == Probe::AlreadyExists
            &&& exists && n == 0 && suffix_on_collision ==> r == Probe::Check(2)
            &&& exists && n != 0 && n < 999 ==> r == Probe::Check((n + 1) as u32)
            &&& exists && n == 999 ==> r == Probe::TooMany
        },
        r matches Probe::RenameTo(k) ==> k == n && !exists,
{
    if n == 0 && is_source {
        Probe::Unchanged
    } else if !exists {
        Probe::RenameTo(n)
    } else if n == 0 {
        if suffix_on_collision {
            Probe::Check(2)
        } else {
            Probe::AlreadyExists
        }
    } else if n < 999 {
        Probe::Check(n + 1)
    } else {
        Probe::TooMany
    }
}

/// A rename that took place.
pub struct Renamed {
    pub from: String,
    pub to: String,
    /// The requested name was taken, so a " (n)" suffix was applied.
    pub suffixed: bool,
}

/// The most recent entry of the rename log.
pub struct RenameLogEntry {
    pub log_id: i64,
    pub file_id: i64,
    pub old_rel: String,
    pub new_rel: String,
    /// Folder that both relative paths are under.
    pub root: String,
}

/// How to reverse the most recent rename.
pub struct UndoPlan {
    pub log_id: i64,
    pub file_id: i64,
    /// Where the file is now.
    pub current: String,
    /// The stem to rename it back to.
    pub old_stem: String,
    pub old_rel: String,
    pub new_rel: String,
}

#[derive(Debug, PartialEq, Eq)]
pub enum UndoError {
    /// The logged previous path has no file name to take a stem from.
    NoPreviousName,
}

/// Reverses the most recent rename: `Ok(None)` when there is nothing to undo.
///
/// The file at `root/new_rel` goes back to the stem of `root/old_rel`; the
/// rename is refused rather than suffixed, since an undo that lands on yet
/// another name is worse than reporting that it cannot be undone.
pub fn undo_last(last: Option<RenameLogEntry>) -> (r: Result<Option<UndoPlan>, UndoError>)
    ensures
        last is None ==> r == Ok::<Option<UndoPlan>, UndoError>(None),
        last matches Some(e) ==> {
            let previous = join(e.root@, e.old_rel@);
            match r {
                Ok(Some(p)) => {
                    &&& file_name(previous) is Some
                    &&& p.old_stem@ == stem_of(file_name(previous)->0)
                    &&& p.current@ == join(e.root@, e.new_rel@)
                    &&& p.log_id == e.log_id && p.file_id == e.file_id
                    &&& p.old_rel@ == e.old_rel@ && p.new_rel@ == e.new_rel@
                },
                Ok(None) => false,
                Err(err) => err == UndoError::NoPreviousName && file_name(previous) is None,
            }
        },
{
    match last {
        None => Ok(None),
        Some(e) => {
            let current = join_path(e.root.as_str(), e.new_rel.as_str());
            let previous = join_path(e.root.as_str(), e.old_rel.as_str());
            match file_stem_of(previous.as_str()) {
                None => Err(UndoError::NoPreviousName),
                Some(old_stem) => Ok(
                    Some(
                        UndoPlan {
                            log_id: e.log_id,
                            file_id: e.file_id,
                            current,
                            old_stem,
                            old_rel: e.old_rel,
                            new_rel: e.new_rel,
                        },
                    ),
                ),
            }
        },
    }
}

} // verus!
