//! Sort keys and a stable sort over them: `sort_order` gives the positions
//! of a list in the order of their keys, earlier positions first among
//! equal keys, which is what a stable sort by key produces.

use vstd::prelude::*;

verus! {

/// Lexicographic order on characters by code point; `String`'s `Ord`.
pub open spec fn text_lt(x: Seq<char>, y: Seq<char>) -> bool
    decreases x.len(),
{
    if x.len() == 0 {
        y.len() > 0
    } else if y.len() == 0 {
        false
    } else if x[0] < y[0] {
        true
    } else if x[0] == y[0] {
        text_lt(x.drop_first(), y.drop_first())
    } else {
        false
    }
}

/// A sort key: two texts, then two integers, compared in that order.
pub struct Key {
    pub a: Vec<char>,
    pub b: Vec<char>,
    pub n: i128,
    pub m: i128,
}

pub struct KeyView {
    pub a: Seq<char>,
    pub b: Seq<char>,
    pub n: int,
    pub m: int,
}

impl View for Key {
    type V = KeyView;

    open spec fn view(&self) -> KeyView {
        KeyView { a: self.a@, b: self.b@, n: self.n as int, m: self.m as int }
    }
}

pub open spec fn key_lt(x: KeyView, y: KeyView) -> bool {
    ||| text_lt(x.a, y.a)
    ||| (x.a == y.a && text_lt(x.b, y.b))
    ||| (x.a == y.a && x.b == y.b && x.n < y.n)
    ||| (x.a == y.a && x.b == y.b && x.n == y.n && x.m < y.m)
}

/// Position `i` goes before position `j`: a smaller key, or an equal key and
/// an earlier position.
pub open spec fn before(keys: Seq<KeyView>, i: int, j: int) -> bool {
    key_lt(keys[i], keys[j]) || (keys[i] == keys[j] && i < j)
}

/// `p` lists the positions `0..keys.len()` in key order, earlier positions
/// first among equal keys.
pub open spec fn sorted_order(keys: Seq<KeyView>, p: Seq<int>) -> bool {
    &&& p.len() == keys.len()
    &&& forall|k: int| 0 <= k < p.len() ==> 0 <= #[trigger] p[k] < keys.len()
    &&& forall|k: int, l: int| 0 <= k < l < p.len() ==> before(keys, #[trigger] p[k], #[trigger] p[l])
}

pub proof fn lemma_text_lt_irreflexive(x: Seq<char>)
    ensures
        !text_lt(x, x),
    decreases x.len(),
{
    if x.len() > 0 {
        lemma_text_lt_irreflexive(x.drop_first());
    }
}

pub proof fn lemma_text_lt_transitive(x: Seq<char>, y: Seq<char>, z: Seq<char>)
    requires
        text_lt(x, y),
        text_lt(y, z),
    ensures
        text_lt(x, z),
    decreases x.len(),
{
    if x.len() > 0 && y.len() > 0 && z.len() > 0 && x[0] == y[0] && y[0] == z[0] {
        lemma_text_lt_transitive(x.drop_first(), y.drop_first(), z.drop_first());
    }
}

pub proof fn lemma_text_lt_total(x: Seq<char>, y: Seq<char>)
    ensures
        x =~= y || text_lt(x, y) || text_lt(y, x),
    decreases x.len(),
{
    if x.len() > 0 && y.len() > 0 && x[0] == y[0] {
        lemma_text_lt_total(x.drop_first(), y.drop_first());
        if x.drop_first() =~= y.drop_first() {
            assert(x =~= seq![x[0]] + x.drop_first());
            assert(y =~= seq![y[0]] + y.drop_first());
        }
    }
}

pub proof fn lemma_text_lt_asymmetric(x: Seq<char>, y: Seq<char>)
    requires
        text_lt(x, y),
    ensures
        !text_lt(y, x),
{
    if text_lt(y, x) {
        lemma_text_lt_transitive(x, y, x);
        lemma_text_lt_irreflexive(x);
    }
}

proof fn lemma_key_lt_facts(x: KeyView, y: KeyView, z: KeyView)
    ensures
        !key_lt(x, x),
        key_lt(x, y) && key_lt(y, z) ==> key_lt(x, z),
        x == y || key_lt(x, y) || key_lt(y, x),
{
    lemma_text_lt_irreflexive(x.a);
    lemma_text_lt_irreflexive(x.b);
    if key_lt(x, y) && key_lt(y, z) {
        if text_lt(x.a, y.a) && text_lt(y.a, z.a) {
            lemma_text_lt_transitive(x.a, y.a, z.a);
        }
        if x.a == y.a && text_lt(x.b, y.b) && y.a == z.a && text_lt(y.b, z.b) {
            lemma_text_lt_transitive(x.b, y.b, z.b);
        }
    }
    lemma_text_lt_total(x.a, y.a);
    lemma_text_lt_total(x.b, y.b);
}

/// `before` is a strict total order on positions.
pub proof fn lemma_before_order(keys: Seq<KeyView>, i: int, j: int, k: int)
    ensures
        !before(keys, i, i),
        before(keys, i, j) && before(keys, j, k) ==> before(keys, i, k),
        i != j ==> before(keys, i, j) || before(keys, j, i),
        before(keys, i, j) ==> !before(keys, j, i),
{
    lemma_key_lt_facts(keys[i], keys[j], keys[k]);
    lemma_key_lt_facts(keys[j], keys[i], keys[k]);
    lemma_key_lt_facts(keys[i], keys[k], keys[j]);
    lemma_key_lt_facts(keys[j], keys[k], keys[i]);
    if key_lt(keys[i], keys[j]) && key_lt(keys[j], keys[i]) {
        lemma_key_lt_facts(keys[i], keys[j], keys[i]);
    }
}

/// A key order lists every position exactly once.
proof fn lemma_sorted_order_covers(keys: Seq<KeyView>, p: Seq<int>)
    requires
        sorted_order(keys, p),
    ensures
        p.no_duplicates(),
        forall|x: int| 0 <= x < keys.len() ==> p.contains(x),
{
    assert forall|i: int, j: int| 0 <= i < p.len() && 0 <= j < p.len() && i != j implies p[i] != p[j] by {
        lemma_before_order(keys, p[i], p[i], p[i]);
        if i < j {
            assert(before(keys, p[i], p[j]));
        } else {
            assert(before(keys, p[j], p[i]));
        }
    }
    p.unique_seq_to_set();
    let n = keys.len() as int;
    vstd::set_lib::lemma_int_range(0, n);
    let r = vstd::set_lib::set_int_range(0, n);
    assert(p.to_set().subset_of(r)) by {
        assert forall|x: int| p.to_set().contains(x) implies r.contains(x) by {
            let k = choose|k: int| 0 <= k < p.len() && p[k] == x;
        }
    }
    vstd::set_lib::lemma_subset_equality(p.to_set(), r);
    assert forall|x: int| 0 <= x < keys.len() implies p.contains(x) by {
        assert(r.contains(x));
        assert(p.to_set().contains(x));
    }
}

proof fn lemma_sorted_order_prefix(keys: Seq<KeyView>, p1: Seq<int>, p2: Seq<int>, k: int)
    requires
        sorted_order(keys, p1),
        sorted_order(keys, p2),
        0 <= k <= keys.len(),
    ensures
        forall|j: int| 0 <= j < k ==> p1[j] == p2[j],
    decreases k,
{
    if k > 0 {
        lemma_sorted_order_prefix(keys, p1, p2, k - 1);
        lemma_sorted_order_covers(keys, p1);
        lemma_sorted_order_covers(keys, p2);
        let i = k - 1;
        let a = p1[i];
        let b = p2[i];
        if a != b {
            lemma_before_order(keys, a, b, a);
            if before(keys, a, b) {
                assert(p2.contains(a));
                let l = choose|l: int| 0 <= l < p2.len() && p2[l] == a;
                if l > i {
                    assert(before(keys, p2[i], p2[l]));
                    lemma_before_order(keys, b, a, b);
                } else {
                    assert(l < i);
                    assert(p1[l] == p2[l]);
                    assert(p1[l] == p1[i]);
                }
            } else {
                assert(before(keys, b, a));
                assert(p1.contains(b));
                let l = choose|l: int| 0 <= l < p1.len() && p1[l] == b;
                if l > i {
                    assert(before(keys, p1[i], p1[l]));
                    lemma_before_order(keys, a, b, a);
                } else {
                    assert(l < i);
                    assert(p1[l] == p2[l]);
                    assert(p2[l] == p2[i]);
                }
            }
        }
    }
}

/// There is only one key order of a list: a stable sort has one result.
pub proof fn lemma_sorted_order_unique(keys: Seq<KeyView>, p1: Seq<int>, p2: Seq<int>)
    requires
        sorted_order(keys, p1),
        sorted_order(keys, p2),
    ensures
        p1 == p2,
{
    lemma_sorted_order_prefix(keys, p1, p2, keys.len() as int);
    assert(p1 =~= p2);
}

/// Compares two texts: -1, 0 or 1.
fn compare_text(x: &Vec<char>, y: &Vec<char>) -> (r: i8)
    ensures
        r == -1 <==> text_lt(x@, y@),
        r == 0 <==> x@ == y@,
        r == 1 <==> text_lt(y@, x@),
        r == -1 || r == 0 || r == 1,
{
    let mut i: usize = 0;
    assert(x@.skip(0) =~= x@);
    assert(y@.skip(0) =~= y@);
    while i < x.len() && i < y.len() && x[i] == y[i]
        invariant
            i <= x@.len(),
            i <= y@.len(),
            x@.take(i as int) =~= y@.take(i as int),
            text_lt(x@, y@) == text_lt(x@.skip(i as int), y@.skip(i as int)),
            text_lt(y@, x@) == text_lt(y@.skip(i as int), x@.skip(i as int)),
        decreases x@.len() - i,
    {
        assert(x@.skip(i as int).drop_first() =~= x@.skip(i + 1));
        assert(y@.skip(i as int).drop_first() =~= y@.skip(i + 1));
        assert(x@.take(i + 1) =~= x@.take(i as int).push(x@[i as int]));
        assert(y@.take(i + 1) =~= y@.take(i as int).push(y@[i as int]));
        i += 1;
    }
    proof {
        lemma_text_lt_irreflexive(x@);
    }
    if i == x.len() && i == y.len() {
        assert(x@ =~= x@.take(i as int));
        assert(y@ =~= y@.take(i as int));
        0
    } else if i == x.len() {
        assert(x@.skip(i as int).len() == 0);
        proof {
            lemma_text_lt_asymmetric(x@, y@);
        }
        -1
    } else if i == y.len() {
        assert(y@.skip(i as int).len() == 0);
        proof {
            lemma_text_lt_asymmetric(y@, x@);
        }
        1
    } else if x[i] < y[i] {
        assert(x@.skip(i as int)[0] == x@[i as int]);
        assert(y@.skip(i as int)[0] == y@[i as int]);
        proof {
            lemma_text_lt_asymmetric(x@, y@);
        }
        -1
    } else {
        assert(x@.skip(i as int)[0] == x@[i as int]);
        assert(y@.skip(i as int)[0] == y@[i as int]);
        proof {
            lemma_text_lt_asymmetric(y@, x@);
        }
        1
    }
}

/// Whether position `i` goes before position `j`.
fn goes_before(keys: &Vec<Key>, i: usize, j: usize) -> (r: bool)
    requires
        i < keys@.len(),
        j < keys@.len(),
    ensures
        r == before(keys_view(keys@), i as int, j as int),
{
    let x = &keys[i];
    let y = &keys[j];
    let ca = compare_text(&x.a, &y.a);
    if ca != 0 {
        return ca < 0;
    }
    let cb = compare_text(&x.b, &y.b);
    if cb != 0 {
        return cb < 0;
    }
    if x.n != y.n {
        return x.n < y.n;
    }
    if x.m != y.m {
        return x.m < y.m;
    }
    proof {
        lemma_text_lt_irreflexive(x.a@);
        lemma_text_lt_irreflexive(x.b@);
    }
    i < j
}

pub open spec fn keys_view(keys: Seq<Key>) -> Seq<KeyView> {
    keys.map_values(|k: Key| k@)
}

/// `a` is strictly increasing under `before` and its entries lie in `lo..hi`.
pub open spec fn run(keys: Seq<KeyView>, a: Seq<usize>, lo: int, hi: int) -> bool {
    &&& forall|k: int| 0 <= k < a.len() ==> lo <= #[trigger] a[k] < hi
    &&& forall|k: int, l: int| 0 <= k < l < a.len() ==> before(keys, #[trigger] a[k] as int, #[trigger] a[l] as int)
}

fn merge(keys: &Vec<Key>, a: Vec<usize>, b: Vec<usize>, lo: usize, hi: usize) -> (r: Vec<usize>)
    requires
        hi <= keys@.len(),
        run(keys_view(keys@), a@, lo as int, hi as int),
        run(keys_view(keys@), b@, lo as int, hi as int),
        forall|k: int, l: int| 0 <= k < a@.len() && 0 <= l < b@.len() ==> #[trigger] a@[k] != #[trigger] b@[l],
    ensures
        r@.len() == a@.len() + b@.len(),
        run(keys_view(keys@), r@, lo as int, hi as int),
{
    let ghost ks = keys_view(keys@);
    let mut r: Vec<usize> = Vec::new();
    let mut i: usize = 0;
    let mut j: usize = 0;
    while i < a.len() || j < b.len()
        invariant
            ks == keys_view(keys@),
            hi <= keys@.len(),
            run(ks, a@, lo as int, hi as int),
            run(ks, b@, lo as int, hi as int),
            forall|k: int, l: int| 0 <= k < a@.len() && 0 <= l < b@.len() ==> #[trigger] a@[k] != #[trigger] b@[l],
            i <= a@.len(),
            j <= b@.len(),
            r@.len() == i + j,
            run(ks, r@, lo as int, hi as int),
            r@.len() > 0 && i < a@.len() ==> before(ks, r@.last() as int, a@[i as int] as int),
            r@.len() > 0 && j < b@.len() ==> before(ks, r@.last() as int, b@[j as int] as int),
        decreases a@.len() + b@.len() - i - j,
    {
        let take_a = if i < a.len() && j < b.len() {
            goes_before(keys, a[i], b[j])
        } else {
            i < a.len()
        };
        let x = if take_a {
            a[i]
        } else {
            b[j]
        };
        proof {
            if i < a.len() && j < b.len() && !take_a {
                lemma_before_order(ks, a@[i as int] as int, b@[j as int] as int, 0);
            }
            // x goes after everything already out
            assert forall|k: int| 0 <= k < r@.len() implies before(ks, #[trigger] r@[k] as int, x as int) by {
                if k < r@.len() - 1 {
                    lemma_before_order(ks, r@[k] as int, r@.last() as int, x as int);
                }
            }
            // and before what remains
            if take_a {
                if i + 1 < a@.len() {
                    assert(before(ks, a@[i as int] as int, a@[i + 1] as int));
                }
            } else {
                if j + 1 < b@.len() {
                    assert(before(ks, b@[j as int] as int, b@[j + 1] as int));
                }
            }
        }
        let ghost old_r = r@;
        r.push(x);
        proof {
            assert forall|k: int, l: int| 0 <= k < l < r@.len() implies before(ks, #[trigger] r@[k] as int, #[trigger] r@[l] as int) by {
                if l < r@.len() - 1 {
                    assert(r@[k] == old_r[k] && r@[l] == old_r[l]);
                } else {
                    assert(r@[k] == old_r[k]);
                }
            }
        }
        if take_a {
            i += 1;
        } else {
            j += 1;
        }
    }
    r
}

fn sort_range(keys: &Vec<Key>, lo: usize, hi: usize) -> (r: Vec<usize>)
    requires
        lo <= hi <= keys@.len(),
    ensures
        r@.len() == hi - lo,
        run(keys_view(keys@), r@, lo as int, hi as int),
    decreases hi - lo,
{
    if hi - lo == 0 {
        return Vec::new();
    }
    if hi - lo == 1 {
        let mut r = Vec::new();
        r.push(lo);
        return r;
    }
    let mid = lo + (hi - lo) / 2;
    let a = sort_range(keys, lo, mid);
    let b = sort_range(keys, mid, hi);
    merge(keys, a, b, lo, hi)
}

/// The positions of `keys` in key order, earlier positions first among
/// equal keys.
pub fn sort_order(keys: &Vec<Key>) -> (r: Vec<usize>)
    ensures
        sorted_order(keys_view(keys@), r@.map_values(|i: usize| i as int)),
{
    let r = sort_range(keys, 0, keys.len());
    let ghost p = r@.map_values(|i: usize| i as int);
    assert forall|k: int, l: int| 0 <= k < l < p.len() implies before(keys_view(keys@), #[trigger] p[k], #[trigger] p[l]) by {
        assert(p[k] == r@[k] as int && p[l] == r@[l] as int);
    }
    assert forall|k: int| 0 <= k < p.len() implies 0 <= #[trigger] p[k] < keys@.len() by {
        assert(p[k] == r@[k] as int);
    }
    r
}

} // verus!
