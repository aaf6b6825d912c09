//! Paths as text, with the `/` separator: the parts of `std::path` that the
//! library reasons about (`join`, `file_name`, `file_stem`, `extension`), as
//! they behave on Unix. The library writes `/` on every platform; Windows
//! also accepts `/` between components, so the paths name the same files.

use vstd::prelude::*;
use crate::text::{chars_of, string_of};

verus! {

/// Index of the last `c` in `s`, or -1.
pub open spec fn last_index_of(s: Seq<char>, c: char) -> int
    decreases s.len(),
{
    if s.len() == 0 {
        -1
    } else if s.last() == c {
        s.len() - 1
    } else {
        last_index_of(s.drop_last(), c)
    }
}

/// `PathBuf::join` on Unix: an absolute `part` replaces `base`, otherwise a
/// separator is added unless `base` is empty or already ends with one.
pub open spec fn join(base: Seq<char>, part: Seq<char>) -> Seq<char> {
    if part.len() > 0 && part[0] == '/' {
        part
    } else if base.len() == 0 || base.last() == '/' {
        base + part
    } else {
        base + seq!['/'] + part
    }
}

/// The last component that is neither empty nor `.`, as `Path::components` yields it.
pub open spec fn last_component(s: Seq<char>) -> Option<Seq<char>>
    decreases s.len(),
{
    let i = last_index_of(s, '/');
    let seg = s.subrange(i + 1, s.len() as int);
    if seg.len() == 0 || seg =~= seq!['.'] {
        if i < 0 {
            None
        } else {
            proof {
                lemma_last_index_bounds(s, '/');
            }
            last_component(s.take(i))
        }
    } else {
        Some(seg)
    }
}

/// `Path::file_name`.
pub open spec fn file_name(s: Seq<char>) -> Option<Seq<char>> {
    match last_component(s) {
        Some(seg) => if seg =~= seq!['.', '.'] {
            None
        } else {
            Some(seg)
        },
        None => None,
    }
}

/// `Path::file_stem` applied to a file name: the part before the last dot,
/// unless the only dot leads the name.
pub open spec fn stem_of(name: Seq<char>) -> Seq<char> {
    let d = last_index_of(name, '.');
    if d <= 0 {
        name
    } else {
        name.take(d)
    }
}

/// `Path::extension` applied to a file name.
pub open spec fn extension_of(name: Seq<char>) -> Option<Seq<char>> {
    let d = last_index_of(name, '.');
    if d <= 0 {
        None
    } else {
        Some(name.skip(d + 1))
    }
}

pub proof fn lemma_last_index_bounds(s: Seq<char>, c: char)
    ensures
        -1 <= last_index_of(s, c) < s.len(),
        last_index_of(s, c) >= 0 ==> s[last_index_of(s, c)] == c,
        forall|k: int| last_index_of(s, c) < k < s.len() ==> s[k] != c,
    decreases s.len(),
{
    if s.len() > 0 && s.last() != c {
        let t = s.drop_last();
        lemma_last_index_bounds(t, c);
        assert forall|k: int| last_index_of(s, c) < k < s.len() implies s[k] != c by {
            if k < s.len() - 1 {
                assert(s[k] == t[k]);
            }
        }
    }
}

proof fn lemma_last_index_char(s: Seq<char>, c: char, r: int)
    requires
        -1 <= r < s.len(),
        r >= 0 ==> s[r] == c,
        forall|k: int| r < k < s.len() ==> s[k] != c,
    ensures
        last_index_of(s, c) == r,
    decreases s.len(),
{
    if s.len() > 0 && s.last() != c {
        lemma_last_index_char(s.drop_last(), c, r);
    }
}

/// Index of the last `c` in `cs[..end]`.
fn last_index_exec(cs: &Vec<char>, end: usize, c: char) -> (r: Option<usize>)
    requires
        end <= cs@.len(),
    ensures
        match r {
            Some(i) => last_index_of(cs@.take(end as int), c) == i,
            None => last_index_of(cs@.take(end as int), c) == -1,
        },
{
    let mut j = end;
    while j > 0 && cs[j - 1] != c
        invariant
            j <= end <= cs@.len(),
            forall|k: int| j <= k < end ==> cs@[k] != c,
        decreases j,
    {
        j -= 1;
    }
    proof {
        lemma_last_index_char(cs@.take(end as int), c, j - 1);
    }
    if j == 0 {
        None
    } else {
        Some(j - 1)
    }
}

/// `base` joined with `part`.
pub fn join_path(base: &str, part: &str) -> (r: String)
    ensures
        r@ == join(base@, part@),
{
    let b = chars_of(base);
    let p = chars_of(part);
    if p.len() > 0 && p[0] == '/' {
        return string_of(&p, 0, p.len());
    }
    let mut r = string_of(&b, 0, b.len());
    if b.len() > 0 && b[b.len() - 1] != '/' {
        r.append("/");
        proof {
            reveal_strlit("/");
        }
    }
    r.append(part);
    assert(b@.subrange(0, b@.len() as int) =~= b@);
    assert(p@.subrange(0, p@.len() as int) =~= p@);
    r
}

/// The last component of `path`, if it has one.
pub fn last_component_exec(path: &Vec<char>) -> (r: Option<(usize, usize)>)
    ensures
        match r {
            Some((a, b)) => a <= b <= path@.len() && last_component(path@) == Some(
                path@.subrange(a as int, b as int),
            ),
            None => last_component(path@) is None,
        },
{
    let mut end = path.len();
    assert(path@.take(end as int) =~= path@);
    loop
        invariant
            end <= path@.len(),
            last_component(path@) == last_component(path@.take(end as int)),
        decreases end,
    {
        let ghost s = path@.take(end as int);
        let i = last_index_exec(path, end, '/');
        proof {
            lemma_last_index_bounds(s, '/');
        }
        let start = match i {
            Some(i) => i + 1,
            None => 0,
        };
        assert(s.subrange(start as int, s.len() as int) =~= path@.subrange(start as int, end as int));
        let empty_or_dot = start == end || (end - start == 1 && path[start] == '.');
        if !empty_or_dot {
            if end - start == 1 {
                assert(s.subrange(start as int, s.len() as int)[0] == path@[start as int]);
            }
            assert(!(s.subrange(start as int, s.len() as int) =~= seq!['.']));
            return Some((start, end));
        }
        assert(s.subrange(start as int, s.len() as int) =~= seq!['.'] || s.subrange(
            start as int,
            s.len() as int,
        ).len() == 0);
        match i {
            None => {
                return None;
            },
            Some(i) => {
                assert(s.take(i as int) =~= path@.take(i as int));
                end = i;
            },
        }
    }
}

/// `Path::file_name`, as text.
pub fn file_name_of(path: &str) -> (r: Option<String>)
    ensures
        match r {
            Some(n) => file_name(path@) == Some(n@),
            None => file_name(path@) is None,
        },
{
    let cs = chars_of(path);
    match last_component_exec(&cs) {
        None => None,
        Some((a, b)) => {
            if b - a == 2 && cs[a] == '.' && cs[a + 1] == '.' {
                assert(cs@.subrange(a as int, b as int) =~= seq!['.', '.']);
                None
            } else {
                assert(!(cs@.subrange(a as int, b as int) =~= seq!['.', '.']));
                Some(string_of(&cs, a, b))
            }
        },
    }
}

/// `Path::file_stem`, as text.
pub fn file_stem_of(path: &str) -> (r: Option<String>)
    ensures
        match r {
            Some(n) => file_name(path@) is Some && n@ == stem_of(file_name(path@)->0),
            None => file_name(path@) is None,
        },
{
    match file_name_of(path) {
        None => None,
        Some(name) => {
            let cs = chars_of(name.as_str());
            let d = last_index_exec(&cs, cs.len(), '.');
            assert(cs@.take(cs@.len() as int) =~= cs@);
            proof {
                lemma_last_index_bounds(cs@, '.');
            }
            match d {
                Some(d) if d > 0 => {
                    assert(cs@.subrange(0, d as int) =~= cs@.take(d as int));
                    Some(string_of(&cs, 0, d))
                },
                _ => Some(name),
            }
        },
    }
}

/// `Path::extension`, as text.
pub fn extension_of_path(path: &str) -> (r: Option<String>)
    ensures
        match r {
            Some(e) => file_name(path@) is Some && extension_of(file_name(path@)->0) == Some(e@),
            None => file_name(path@) is None || extension_of(file_name(path@)->0) is None,
        },
{
    match file_name_of(path) {
        None => None,
        Some(name) => {
            let cs = chars_of(name.as_str());
            let d = last_index_exec(&cs, cs.len(), '.');
            assert(cs@.take(cs@.len() as int) =~= cs@);
            match d {
                Some(d) if d > 0 => {
                    proof {
                        lemma_last_index_bounds(cs@, '.');
                    }
                    assert(cs@.subrange(d + 1, cs@.len() as int) =~= cs@.skip(d + 1));
                    Some(string_of(&cs, d + 1, cs.len()))
                },
                _ => None,
            }
        },
    }
}

} // verus!
