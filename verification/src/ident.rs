//! Machine-independent file identity: size plus the head and tail bytes.
//!
//! Deliberately not a full-content hash: scanning 10k files would be IO-bound
//! on the hash rather than the decode. Head+tail+size is enough to tell real
//! files apart while staying stable across renames, moves and machines,
//! which is what makes pack metadata portable between users.

use vstd::prelude::*;
use crate::text::push_char;

verus! {

/// Bytes read from each end of a file.
pub const CHUNK: usize = 65536;

/// Only a file bigger than two chunks has a tail distinct from its head.
pub fn reads_tail(size: u64) -> (r: bool)
    ensures
        r == (size > 2 * CHUNK),
{
    size > 2 * 65536
}

/// The BLAKE3 digest of `data`: a cryptographic hash, named, not stated.
pub uninterp spec fn blake3_digest(data: Seq<u8>) -> Seq<u8>;

/// `blake3::hash`. Claims: the result is `blake3_digest(data)`, 32 bytes.
#[verifier::external_body]
fn blake3_hash(data: &[u8]) -> (r: Vec<u8>)
    ensures
        r@ == blake3_digest(data@),
        r@.len() == 32,
{
    blake3::hash(data).as_bytes().to_vec()
}

/// `u64::to_le_bytes`.
pub open spec fn le64(v: u64) -> Seq<u8> {
    Seq::new(8, |i: int| ((v as nat / pow256(i as nat)) % 256) as u8)
}

pub open spec fn hex_char(d: int) -> char {
    crate::text::digit_char(d)
}

/// Lower-case hex of each byte, two characters per byte.
pub open spec fn hex_of(b: Seq<u8>) -> Seq<char>
    decreases b.len(),
{
    if b.len() == 0 {
        Seq::empty()
    } else {
        hex_of(b.drop_last()) + seq![hex_char((b.last() / 16) as int), hex_char((b.last() % 16) as int)]
    }
}

/// The key for a file of `size` bytes whose first bytes are `head` and whose
/// last bytes are `tail` (empty when `reads_tail` says no tail is read):
/// "b3:" and the hex of the BLAKE3 digest of size (little-endian), head, tail.
pub open spec fn key_of(size: u64, head: Seq<u8>, tail: Seq<u8>) -> Seq<char> {
    seq!['b', '3', ':'] + hex_of(blake3_digest(le64(size) + head + tail))
}

fn hex_digit(d: u8) -> (r: char)
    requires
        d < 16,
    ensures
        r == hex_char(d as int),
{
    if d < 10 {
        (48u8 + d) as char
    } else {
        (87u8 + d) as char
    }
}

pub fn content_key(size: u64, head: &[u8], tail: &[u8]) -> (r: String)
    ensures
        r@ == key_of(size, head@, tail@),
{
    let mut data: Vec<u8> = Vec::new();
    let mut v = size;
    let mut k: usize = 0;
    assert(pow256(0) == 1);
    while k < 8
        invariant
            k <= 8,
            v as nat == size as nat / pow256(k as nat),
            data@ =~= le64(size).take(k as int),
        decreases 8 - k,
    {
        proof {
            lemma_pow256_step(size, k as nat);
        }
        data.push((v % 256) as u8);
        assert(data@ =~= le64(size).take(k + 1));
        v = v / 256;
        k += 1;
    }
    assert(le64(size).take(8) =~= le64(size));
    let mut i: usize = 0;
    let ghost start = data@;
    while i < head.len()
        invariant
            i <= head@.len(),
            data@ == start + head@.take(i as int),
        decreases head@.len() - i,
    {
        data.push(head[i]);
        assert(head@.take(i + 1) =~= head@.take(i as int).push(head@[i as int]));
        i += 1;
    }
    assert(head@.take(head@.len() as int) =~= head@);
    let ghost mid = data@;
    let mut j: usize = 0;
    while j < tail.len()
        invariant
            j <= tail@.len(),
            data@ == mid + tail@.take(j as int),
        decreases tail@.len() - j,
    {
        data.push(tail[j]);
        assert(tail@.take(j + 1) =~= tail@.take(j as int).push(tail@[j as int]));
        j += 1;
    }
    assert(tail@.take(tail@.len() as int) =~= tail@);
    let digest = blake3_hash(data.as_slice());
    let mut r = String::new();
    push_char(&mut r, 'b');
    push_char(&mut r, '3');
    push_char(&mut r, ':');
    let mut n: usize = 0;
    let ghost d = digest@;
    assert(d.take(0) =~= Seq::<u8>::empty());
    while n < digest.len()
        invariant
            d == digest@,
            n <= d.len(),
            r@ == seq!['b', '3', ':'] + hex_of(d.take(n as int)),
        decreases d.len() - n,
    {
        let byte = digest[n];
        push_char(&mut r, hex_digit(byte / 16));
        push_char(&mut r, hex_digit(byte % 16));
        assert(d.take(n + 1).drop_last() =~= d.take(n as int));
        assert(r@ =~= seq!['b', '3', ':'] + hex_of(d.take(n + 1)));
        n += 1;
    }
    assert(d.take(d.len() as int) =~= d);
    r
}

pub open spec fn pow256(k: nat) -> nat
    decreases k,
{
    if k == 0 {
        1
    } else {
        256 * pow256((k - 1) as nat)
    }
}

proof fn lemma_pow256_step(size: u64, k: nat)
    ensures
        (size as nat / pow256(k)) / 256 == size as nat / pow256(k + 1),
        pow256(k) > 0,
{
    lemma_pow256_pos(k);
    assert(pow256(k + 1) == 256 * pow256(k));
    vstd::arithmetic::div_mod::lemma_div_denominator(size as int, pow256(k) as int, 256);
    assert(pow256(k) * 256 == pow256(k + 1)) by (nonlinear_arith)
        requires
            pow256(k + 1) == 256 * pow256(k),
    ;
}

proof fn lemma_pow256_pos(k: nat)
    ensures
        pow256(k) > 0,
    decreases k,
{
    if k > 0 {
        lemma_pow256_pos((k - 1) as nat);
    }
}

} // verus!
