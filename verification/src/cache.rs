//! The waveform peak cache: per-channel min/max pairs, their binary blob
//! format, and where a blob lives on disk.

use vstd::prelude::*;
use crate::paths::{join, join_path};
use crate::text::{chars_of, string_of};

verus! {

/// Bump to invalidate every cached blob without a schema migration.
pub const VERSION: u16 = 1;

/// Samples per bucket: coarse, about 10 KB per 3-minute stereo file.
pub const BUCKET_SAMPLES: usize = 2048;

/// Length of the fixed header that precedes the pairs.
pub const HEADER_LEN: usize = 20;

pub struct Peaks {
    pub sample_rate: u32,
    pub channels: usize,
    pub bucket_samples: usize,
    /// Per channel, min/max pairs quantised to i16.
    pub data: Vec<Vec<(i16, i16)>>,
}

/// Mathematical form of [`Peaks`].
pub struct PeaksView {
    pub sample_rate: u32,
    pub channels: nat,
    pub bucket_samples: nat,
    pub data: Seq<Seq<(i16, i16)>>,
}

impl View for Peaks {
    type V = PeaksView;

    open spec fn view(&self) -> PeaksView {
        PeaksView {
            sample_rate: self.sample_rate,
            channels: self.channels as nat,
            bucket_samples: self.bucket_samples as nat,
            data: Seq::new(self.data@.len(), |i: int| self.data@[i]@),
        }
    }
}

impl PeaksView {
    /// Buckets per channel, read off the first channel.
    pub open spec fn buckets(self) -> nat {
        if self.data.len() > 0 {
            self.data[0].len()
        } else {
            0
        }
    }

    /// What the blob format can hold exactly: a channel count and bucket
    /// counts that fit their header fields, and channels of equal length.
    pub open spec fn well_formed(self) -> bool {
        &&& self.channels == self.data.len()
        &&& self.channels <= u16::MAX
        &&& self.bucket_samples <= u32::MAX
        &&& self.buckets() <= u32::MAX
        &&& forall|c: int| 0 <= c < self.data.len() ==> #[trigger] self.data[c].len() == self.buckets()
    }
}

impl Peaks {
    pub fn buckets(&self) -> (r: usize)
        ensures
            r == self@.buckets(),
    {
        if self.data.len() > 0 {
            self.data[0].len()
        } else {
            0
        }
    }
}

pub open spec fn le16(v: u16) -> Seq<u8> {
    seq![(v % 256) as u8, (v / 256) as u8]
}

pub open spec fn le32(v: u32) -> Seq<u8> {
    seq![(v % 256) as u8, ((v / 256) % 256) as u8, ((v / 65536) % 256) as u8, (v / 16777216) as u8]
}

/// The two's-complement bit pattern of an i16.
pub open spec fn bits16(v: i16) -> u16 {
    if v < 0 {
        (v + 65536) as u16
    } else {
        v as u16
    }
}

pub open spec fn from_bits16(u: u16) -> i16 {
    if u >= 32768 {
        (u - 65536) as i16
    } else {
        u as i16
    }
}

pub open spec fn magic() -> Seq<u8> {
    seq![0x53u8, 0x42u8, 0x50u8, 0x4bu8]
}

pub open spec fn pair_bytes(p: (i16, i16)) -> Seq<u8> {
    le16(bits16(p.0)) + le16(bits16(p.1))
}

pub open spec fn channel_bytes(ch: Seq<(i16, i16)>) -> Seq<u8>
    decreases ch.len(),
{
    if ch.len() == 0 {
        Seq::empty()
    } else {
        channel_bytes(ch.drop_last()) + pair_bytes(ch.last())
    }
}

pub open spec fn data_bytes(d: Seq<Seq<(i16, i16)>>) -> Seq<u8>
    decreases d.len(),
{
    if d.len() == 0 {
        Seq::empty()
    } else {
        data_bytes(d.drop_last()) + channel_bytes(d.last())
    }
}

/// The header: magic "SBPK", version, sample rate, channel count, bucket
/// size and bucket count, little-endian, each count truncated to its field.
pub open spec fn header(p: PeaksView) -> Seq<u8> {
    magic() + le16(VERSION) + le32(p.sample_rate) + le16((p.channels % 65536) as u16) + le32(
        (p.bucket_samples % 0x1_0000_0000) as u32,
    ) + le32((p.buckets() % 0x1_0000_0000) as u32)
}

/// The blob `encode` writes.
pub open spec fn encoding(p: PeaksView) -> Seq<u8> {
    header(p) + data_bytes(p.data)
}

pub open spec fn u16_at(b: Seq<u8>, o: int) -> u16 {
    (b[o] + 256 * b[o + 1]) as u16
}

pub open spec fn u32_at(b: Seq<u8>, o: int) -> u32 {
    (b[o] + 256 * b[o + 1] + 65536 * b[o + 2] + 16777216 * b[o + 3]) as u32
}

pub open spec fn pair_at(b: Seq<u8>, o: int) -> (i16, i16) {
    (from_bits16(u16_at(b, o)), from_bits16(u16_at(b, o + 2)))
}

/// Why a blob is refused.
#[derive(Debug, PartialEq, Eq)]
pub enum DecodeError {
    /// Too short for a header, or the magic is wrong.
    NotPeaks,
    /// Written by another version of the format.
    Version(u16),
    /// Shorter than its header says: (length, length needed).
    Truncated(usize, u64),
}

/// Bytes the blob needs for `channels` x `buckets` pairs.
pub open spec fn needed(channels: nat, buckets: nat) -> int {
    HEADER_LEN + channels * buckets * 4
}

/// Blobs on which the header is read past the bytes that were checked:
/// long enough for the first check, too short for the bucket count.
pub open spec fn short_header(b: Seq<u8>) -> bool {
    &&& 16 <= b.len() < 20
    &&& b.take(4) =~= magic()
    &&& u16_at(b, 4) == VERSION
}

/// What `decode` makes of a blob.
pub open spec fn decoded(b: Seq<u8>) -> Result<PeaksView, DecodeError> {
    if b.len() < 16 || !(b.take(4) =~= magic()) {
        Err(DecodeError::NotPeaks)
    } else if u16_at(b, 4) != VERSION {
        Err(DecodeError::Version(u16_at(b, 4)))
    } else {
        let channels = u16_at(b, 10) as nat;
        let buckets = u32_at(b, 16) as nat;
        if b.len() < needed(channels, buckets) {
            Err(DecodeError::Truncated(b.len() as usize, needed(channels, buckets) as u64))
        } else {
            Ok(
                PeaksView {
                    sample_rate: u32_at(b, 6),
                    channels,
                    bucket_samples: u32_at(b, 12) as nat,
                    data: Seq::new(
                        channels,
                        |c: int| Seq::new(buckets, |k: int| pair_at(b, HEADER_LEN + 4 * (c * buckets + k))),
                    ),
                },
            )
        }
    }
}

fn push_le16(out: &mut Vec<u8>, v: u16)
    ensures
        final(out)@ == old(out)@ + le16(v),
{
    out.push((v % 256) as u8);
    out.push((v / 256) as u8);
    assert(final(out)@ =~= old(out)@ + le16(v));
}

fn push_le32(out: &mut Vec<u8>, v: u32)
    ensures
        final(out)@ == old(out)@ + le32(v),
{
    out.push((v % 256) as u8);
    out.push(((v / 256) % 256) as u8);
    out.push(((v / 65536) % 256) as u8);
    out.push((v / 16777216) as u8);
    assert(final(out)@ =~= old(out)@ + le32(v));
}

fn bits16_exec(v: i16) -> (r: u16)
    ensures
        r == bits16(v),
{
    if v < 0 {
        (v as i32 + 65536) as u16
    } else {
        v as u16
    }
}

fn from_bits16_exec(u: u16) -> (r: i16)
    ensures
        r == from_bits16(u),
{
    if u >= 32768 {
        (u as i32 - 65536) as i16
    } else {
        u as i16
    }
}

/// The blob for `p`.
pub fn encode(p: &Peaks) -> (r: Vec<u8>)
    ensures
        r@ == encoding(p@),
{
    let mut out: Vec<u8> = Vec::new();
    out.push(0x53u8);
    out.push(0x42u8);
    out.push(0x50u8);
    out.push(0x4bu8);
    assert(out@ =~= magic());
    push_le16(&mut out, VERSION);
    push_le32(&mut out, p.sample_rate);
    push_le16(&mut out, (p.channels % 65536) as u16);
    push_le32(&mut out, ((p.bucket_samples as u64) % 0x1_0000_0000) as u32);
    let nb = p.buckets();
    push_le32(&mut out, ((nb as u64) % 0x1_0000_0000) as u32);
    let ghost d = p@.data;
    assert(out@ =~= header(p@));
    let mut c: usize = 0;
    assert(d.take(0) =~= Seq::<Seq<(i16, i16)>>::empty());
    while c < p.data.len()
        invariant
            c <= p.data@.len(),
            d == p@.data,
            out@ == header(p@) + data_bytes(d.take(c as int)),
        decreases p.data@.len() - c,
    {
        let ch = &p.data[c];
        let mut k: usize = 0;
        assert(ch@.take(0) =~= Seq::<(i16, i16)>::empty());
        while k < ch.len()
            invariant
                c < p.data@.len(),
                ch == &p.data@[c as int],
                k <= ch@.len(),
                d == p@.data,
                out@ == header(p@) + data_bytes(d.take(c as int)) + channel_bytes(ch@.take(k as int)),
            decreases ch@.len() - k,
        {
            let (lo, hi) = ch[k];
            let ghost before = out@;
            push_le16(&mut out, bits16_exec(lo));
            push_le16(&mut out, bits16_exec(hi));
            assert(ch@.take(k + 1).drop_last() =~= ch@.take(k as int));
            assert(out@ =~= before + pair_bytes(ch@[k as int]));
            k += 1;
        }
        assert(ch@.take(ch@.len() as int) =~= ch@);
        assert(d.take(c + 1).drop_last() =~= d.take(c as int));
        assert(d.take(c + 1).last() == ch@);
        c += 1;
    }
    assert(d.take(d.len() as int) =~= d);
    out
}


fn u16_at_exec(b: &[u8], o: usize) -> (r: u16)
    requires
        o + 2 <= b@.len(),
    ensures
        r == u16_at(b@, o as int),
{
    b[o] as u16 + 256 * (b[o + 1] as u16)
}

fn u32_at_exec(b: &[u8], o: usize) -> (r: u32)
    requires
        o + 4 <= b@.len(),
    ensures
        r == u32_at(b@, o as int),
{
    b[o] as u32 + 256 * (b[o + 1] as u32) + 65536 * (b[o + 2] as u32) + 16777216 * (b[o + 3] as u32)
}

proof fn lemma_pair_index(c: int, k: int, channels: int, buckets: int)
    requires
        0 <= c < channels,
        0 <= k < buckets,
    ensures
        0 <= c * buckets,
        0 <= c * buckets + k,
        c * buckets + k + 1 <= channels * buckets,
{
    assert(c * buckets + k + 1 <= channels * buckets) by (nonlinear_arith)
        requires
            0 <= c < channels,
            0 <= k < buckets,
    ;
    assert(0 <= c * buckets) by (nonlinear_arith)
        requires
            0 <= c,
            0 <= k < buckets,
    ;
}

/// Reads a blob back. Refuses anything that is not a blob of this version,
/// and any blob shorter than its header says.
pub fn decode(bytes: &[u8]) -> (r: Result<Peaks, DecodeError>)
    requires
        !short_header(bytes@),
    ensures
        match r {
            Ok(p) => decoded(bytes@) == Ok::<PeaksView, DecodeError>(p@),
            Err(e) => decoded(bytes@) == Err::<PeaksView, DecodeError>(e),
        },
{
    let ghost b = bytes@;
    if bytes.len() < 16 || !(bytes[0] == 0x53 && bytes[1] == 0x42 && bytes[2] == 0x50 && bytes[3]
        == 0x4b) {
        proof {
            if b.len() >= 16 && b.take(4) =~= magic() {
                assert(b[0] == b.take(4)[0] && b[1] == b.take(4)[1] && b[2] == b.take(4)[2] && b[3]
                    == b.take(4)[3]);
            }
        }
        return Err(DecodeError::NotPeaks);
    }
    assert(b.take(4) =~= magic());
    let version = u16_at_exec(bytes, 4);
    if version != VERSION {
        return Err(DecodeError::Version(version));
    }
    let sample_rate = u32_at_exec(bytes, 6);
    let channels = u16_at_exec(bytes, 10) as usize;
    let bucket_samples = u32_at_exec(bytes, 12) as usize;
    let buckets = u32_at_exec(bytes, 16) as usize;
    assert((channels as u64) * (buckets as u64) <= 0xffff_ffff_ffff) by (nonlinear_arith)
        requires
            channels <= 0xffff,
            buckets <= 0xffff_ffff,
    ;
    let need: u64 = 20 + (channels as u64) * (buckets as u64) * 4;
    if (bytes.len() as u64) < need {
        return Err(DecodeError::Truncated(bytes.len(), need));
    }
    let ghost want = Seq::new(
        channels as nat,
        |c: int| Seq::new(buckets as nat, |k: int| pair_at(b, HEADER_LEN + 4 * (c * buckets + k))),
    );
    let len = bytes.len();
    let mut data: Vec<Vec<(i16, i16)>> = Vec::new();
    let mut c: usize = 0;
    while c < channels
        invariant
            b == bytes@,
            len == b.len(),
            c <= channels,
            channels <= 0xffff,
            buckets <= 0xffff_ffff,
            b.len() >= 20 + channels * buckets * 4,
            want == Seq::new(
                channels as nat,
                |c: int| Seq::new(buckets as nat, |k: int| pair_at(b, HEADER_LEN + 4 * (c * buckets + k))),
            ),
            data@.len() == c,
            forall|i: int| 0 <= i < c ==> (#[trigger] data@[i])@ == want[i],
        decreases channels - c,
    {
        let mut ch: Vec<(i16, i16)> = Vec::new();
        let mut k: usize = 0;
        while k < buckets
            invariant
                b == bytes@,
                len == b.len(),
                c < channels,
                k <= buckets,
                channels <= 0xffff,
                buckets <= 0xffff_ffff,
                b.len() >= 20 + channels * buckets * 4,
                ch@ == want[c as int].take(k as int),
                want == Seq::new(
                    channels as nat,
                    |c: int| Seq::new(buckets as nat, |k: int| pair_at(b, HEADER_LEN + 4 * (c * buckets + k))),
                ),
            decreases buckets - k,
        {
            proof {
                lemma_pair_index(c as int, k as int, channels as int, buckets as int);
            }
            assert(20 + 4 * (c * buckets + k) + 4 <= b.len()) by (nonlinear_arith)
                requires
                    c * buckets + k + 1 <= channels * buckets,
                    b.len() >= 20 + channels * buckets * 4,
            ;
            let cb: usize = c * buckets;
            let o: usize = 20 + 4 * (cb + k);
            let lo = from_bits16_exec(u16_at_exec(bytes, o));
            let hi = from_bits16_exec(u16_at_exec(bytes, o + 2));
            ch.push((lo, hi));
            assert(want[c as int].take(k + 1) =~= want[c as int].take(k as int).push(
                pair_at(b, HEADER_LEN + 4 * (c * buckets + k)),
            ));
            k += 1;
        }
        assert(want[c as int].take(buckets as int) =~= want[c as int]);
        data.push(ch);
        c += 1;
    }
    let p = Peaks { sample_rate, channels, bucket_samples, data };
    assert(p@.data =~= want);
    Ok(p)
}

proof fn lemma_le16(v: u16)
    ensures
        u16_at(le16(v), 0) == v,
{
}

proof fn lemma_le32(v: u32)
    ensures
        u32_at(le32(v), 0) == v,
{
    assert(v % 256 + 256 * ((v / 256) % 256) + 65536 * ((v / 65536) % 256) + 16777216 * (v
        / 16777216) == v) by (nonlinear_arith);
}

proof fn lemma_channel_bytes(ch: Seq<(i16, i16)>)
    ensures
        channel_bytes(ch).len() == 4 * ch.len(),
        forall|k: int, j: int|
            0 <= k < ch.len() && 0 <= j < 4 ==> #[trigger] channel_bytes(ch)[4 * k + j] == pair_bytes(
                ch[k],
            )[j],
    decreases ch.len(),
{
    if ch.len() > 0 {
        let p = ch.drop_last();
        lemma_channel_bytes(p);
        assert forall|k: int, j: int| 0 <= k < ch.len() && 0 <= j < 4 implies #[trigger] channel_bytes(
            ch,
        )[4 * k + j] == pair_bytes(ch[k])[j] by {
            if k < ch.len() - 1 {
                assert(ch[k] == p[k]);
                assert(channel_bytes(p)[4 * k + j] == pair_bytes(p[k])[j]);
            }
        }
    }
}

proof fn lemma_data_bytes(d: Seq<Seq<(i16, i16)>>, nb: int)
    requires
        nb >= 0,
        forall|c: int| 0 <= c < d.len() ==> #[trigger] d[c].len() == nb,
    ensures
        data_bytes(d).len() == 4 * (d.len() * nb),
        forall|c: int, k: int, j: int|
            0 <= c < d.len() && 0 <= k < nb && 0 <= j < 4 ==> #[trigger] data_bytes(d)[4 * (c * nb
                + k) + j] == pair_bytes(d[c][k])[j],
    decreases d.len(),
{
    if d.len() > 0 {
        let p = d.drop_last();
        let n = d.len() - 1;
        lemma_data_bytes(p, nb);
        lemma_channel_bytes(d.last());
        assert(4 * (n * nb) + 4 * nb == 4 * (d.len() * nb)) by (nonlinear_arith)
            requires
                n == d.len() - 1,
        ;
        assert forall|c: int, k: int, j: int|
            0 <= c < d.len() && 0 <= k < nb && 0 <= j < 4 implies #[trigger] data_bytes(d)[4 * (c * nb
            + k) + j] == pair_bytes(d[c][k])[j] by {
            if c < n {
                lemma_pair_index(c, k, n, nb);
                assert(d[c] == p[c]);
                assert(data_bytes(p)[4 * (c * nb + k) + j] == pair_bytes(p[c][k])[j]);
            } else {
                assert(4 * (c * nb + k) + j == 4 * (n * nb) + 4 * k + j) by (nonlinear_arith)
                    requires
                        c == n,
                ;
                assert(channel_bytes(d.last())[4 * k + j] == pair_bytes(d.last()[k])[j]);
            }
        }
    }
}

proof fn lemma_encoding_header(p: PeaksView)
    requires
        p.well_formed(),
    ensures
        encoding(p).len() == 20 + 4 * (p.data.len() * p.buckets()),
        encoding(p).take(4) =~= magic(),
        u16_at(encoding(p), 4) == VERSION,
        u32_at(encoding(p), 6) == p.sample_rate,
        u16_at(encoding(p), 10) == p.channels,
        u32_at(encoding(p), 12) == p.bucket_samples,
        u32_at(encoding(p), 16) == p.buckets(),
        forall|i: int| 0 <= i < data_bytes(p.data).len() ==> #[trigger] encoding(p)[20 + i] == data_bytes(p.data)[i],
{
    let b = encoding(p);
    let h = header(p);
    lemma_data_bytes(p.data, p.buckets() as int);
    assert(h.len() == 20);
    assert(b.take(4) =~= magic());
    assert(u16_at(b, 4) == u16_at(le16(VERSION), 0));
    lemma_le32(p.sample_rate);
    assert(u32_at(b, 6) == u32_at(le32(p.sample_rate), 0));
    assert(u16_at(b, 10) == u16_at(le16((p.channels % 65536) as u16), 0));
    lemma_le16((p.channels % 65536) as u16);
    lemma_le32((p.bucket_samples % 0x1_0000_0000) as u32);
    assert(u32_at(b, 12) == u32_at(le32((p.bucket_samples % 0x1_0000_0000) as u32), 0));
    lemma_le32((p.buckets() % 0x1_0000_0000) as u32);
    assert(u32_at(b, 16) == u32_at(le32((p.buckets() % 0x1_0000_0000) as u32), 0));
}

proof fn lemma_encoding_pair(p: PeaksView, c: int, k: int)
    requires
        p.well_formed(),
        0 <= c < p.data.len(),
        0 <= k < p.buckets(),
    ensures
        pair_at(encoding(p), HEADER_LEN + 4 * (c * p.buckets() + k)) == p.data[c][k],
{
    let b = encoding(p);
    let n = p.data.len() as int;
    let nb = p.buckets() as int;
    lemma_data_bytes(p.data, nb);
    lemma_encoding_header(p);
    lemma_pair_index(c, k, n, nb);
    let o = 4 * (c * nb + k);
    let q = p.data[c][k];
    assert(o + 4 <= data_bytes(p.data).len()) by (nonlinear_arith)
        requires
            c * nb + k + 1 <= n * nb,
            o == 4 * (c * nb + k),
            data_bytes(p.data).len() == 4 * (n * nb),
    ;
    assert(data_bytes(p.data)[o + 0] == pair_bytes(q)[0]);
    assert(data_bytes(p.data)[o + 1] == pair_bytes(q)[1]);
    assert(data_bytes(p.data)[o + 2] == pair_bytes(q)[2]);
    assert(data_bytes(p.data)[o + 3] == pair_bytes(q)[3]);
    assert(b[20 + o] == data_bytes(p.data)[o]);
    assert(b[20 + o + 1] == data_bytes(p.data)[o + 1]);
    assert(b[20 + o + 2] == data_bytes(p.data)[o + 2]);
    assert(b[20 + o + 3] == data_bytes(p.data)[o + 3]);
    lemma_le16(bits16(q.0));
    lemma_le16(bits16(q.1));
}

/// Decoding gives back exactly what was encoded, for every value the format
/// can hold (see [`PeaksView::well_formed`]).
pub proof fn lemma_decode_encode(p: PeaksView)
    requires
        p.well_formed(),
    ensures
        decoded(encoding(p)) == Ok::<PeaksView, DecodeError>(p),
{
    let b = encoding(p);
    let n = p.data.len() as int;
    let nb = p.buckets() as int;
    lemma_encoding_header(p);
    assert(n * nb * 4 == 4 * (n * nb)) by (nonlinear_arith);
    let want = Seq::new(
        n as nat,
        |c: int| Seq::new(nb as nat, |k: int| pair_at(b, HEADER_LEN + 4 * (c * nb + k))),
    );
    assert forall|c: int| 0 <= c < n implies #[trigger] want[c] =~= p.data[c] by {
        assert forall|k: int| 0 <= k < nb implies #[trigger] want[c][k] == p.data[c][k] by {
            lemma_encoding_pair(p, c, k);
        }
    }
    assert(want =~= p.data);
}


/// Bytes of `c` in UTF-8.
pub open spec fn utf8_len(c: char) -> nat {
    if (c as u32) < 0x80 {
        1
    } else if (c as u32) < 0x800 {
        2
    } else if (c as u32) < 0x10000 {
        3
    } else {
        4
    }
}

/// The content key without its "b3:" prefix.
pub open spec fn key_hex(key: Seq<char>) -> Seq<char> {
    if key.len() >= 3 && key.take(3) =~= seq!['b', '3', ':'] {
        key.skip(3)
    } else {
        key
    }
}

/// How many characters make up the first two bytes of `hex` (all of it when
/// it is shorter); `None` when byte 2 falls inside a character.
pub open spec fn shard_len(hex: Seq<char>) -> Option<nat> {
    if hex.len() == 0 {
        Some(0)
    } else if utf8_len(hex[0]) >= 3 {
        None
    } else if utf8_len(hex[0]) == 2 || hex.len() == 1 {
        Some(1)
    } else if utf8_len(hex[1]) == 1 {
        Some(2)
    } else {
        None
    }
}

/// Where the blob of a content key lives: `peaks/<first two bytes>/<rest>.pk`
/// under the cache directory; sharding keeps any one directory small.
pub open spec fn blob_location(cache_dir: Seq<char>, key: Seq<char>) -> Seq<char> {
    let hex = key_hex(key);
    let n = shard_len(hex)->0 as int;
    join(
        join(join(cache_dir, seq!['p', 'e', 'a', 'k', 's']), hex.take(n)),
        hex.skip(n) + seq!['.', 'p', 'k'],
    )
}

fn utf8_len_exec(c: char) -> (r: u8)
    ensures
        r == utf8_len(c),
{
    let u = c as u32;
    if u < 0x80 {
        1
    } else if u < 0x800 {
        2
    } else if u < 0x10000 {
        3
    } else {
        4
    }
}

fn hex_start(key: &Vec<char>) -> (r: usize)
    ensures
        r <= key@.len(),
        key_hex(key@) =~= key@.skip(r as int),
{
    if key.len() >= 3 && key[0] == 'b' && key[1] == '3' && key[2] == ':' {
        assert(key@.take(3) =~= seq!['b', '3', ':']);
        3
    } else {
        proof {
            if key@.len() >= 3 && key@.take(3) =~= seq!['b', '3', ':'] {
                assert(key@[0] == key@.take(3)[0] && key@[1] == key@.take(3)[1] && key@[2] == key@.take(
                    3,
                )[2]);
            }
        }
        assert(key@.skip(0) =~= key@);
        0
    }
}

fn shard_len_exec(key: &Vec<char>, from: usize) -> (r: usize)
    requires
        from <= key@.len(),
        shard_len(key@.skip(from as int)) is Some,
    ensures
        r == shard_len(key@.skip(from as int))->0,
        from + r <= key@.len(),
{
    let ghost hex = key@.skip(from as int);
    let n = key.len() - from;
    if n == 0 {
        0
    } else {
        assert(hex[0] == key@[from as int]);
        if utf8_len_exec(key[from]) == 2 || n == 1 {
            1
        } else {
            assert(hex[1] == key@[from + 1]);
            2
        }
    }
}

pub fn blob_path(cache_dir: &str, content_key: &str) -> (r: String)
    requires
        shard_len(key_hex(content_key@)) is Some,
    ensures
        r@ == blob_location(cache_dir@, content_key@),
{
    let key = chars_of(content_key);
    let from = hex_start(&key);
    let k = shard_len_exec(&key, from);
    let ghost hex = key_hex(content_key@);
    assert(hex.take(k as int) =~= key@.subrange(from as int, from + k));
    assert(hex.skip(k as int) =~= key@.subrange(from + k, key@.len() as int));
    let shard = string_of(&key, from, from + k);
    let mut file = string_of(&key, from + k, key.len());
    file.append(".pk");
    proof {
        reveal_strlit(".pk");
        reveal_strlit("peaks");
    }
    assert(file@ =~= hex.skip(k as int) + seq!['.', 'p', 'k']);
    assert(shard@ =~= hex.take(k as int));
    assert("peaks"@ =~= seq!['p', 'e', 'a', 'k', 's']);
    let peaks = join_path(cache_dir, "peaks");
    let dir = join_path(peaks.as_str(), shard.as_str());
    let r = join_path(dir.as_str(), file.as_str());
    assert(dir@ == join(join(cache_dir@, seq!['p', 'e', 'a', 'k', 's']), hex.take(k as int)));
    r
}

/// Buckets for `frames` frames: enough to cover them, and at least one.
pub open spec fn bucket_count(frames: nat) -> nat {
    if frames == 0 {
        1
    } else {
        ((frames + BUCKET_SAMPLES - 1) / (BUCKET_SAMPLES as int)) as nat
    }
}

/// The frame ranges `build` reduces to one min/max pair each: consecutive
/// runs of `BUCKET_SAMPLES` frames, the last one cut short at `frames`.
pub fn bucket_ranges(frames: usize) -> (r: Vec<(usize, usize)>)
    requires
        frames + BUCKET_SAMPLES <= usize::MAX,
    ensures
        r@.len() == bucket_count(frames as nat),
        forall|b: int|
            0 <= b < r@.len() ==> #[trigger] r@[b] == (
                (b * BUCKET_SAMPLES) as usize,
                if (b + 1) * BUCKET_SAMPLES < frames {
                    ((b + 1) * BUCKET_SAMPLES) as usize
                } else {
                    frames
                },
            ),
{
    let count: usize = if frames == 0 {
        1
    } else {
        (frames + BUCKET_SAMPLES - 1) / BUCKET_SAMPLES
    };
    let mut r: Vec<(usize, usize)> = Vec::new();
    let mut b: usize = 0;
    while b < count
        invariant
            frames + BUCKET_SAMPLES <= usize::MAX,
            count == bucket_count(frames as nat),
            b <= count,
            r@.len() == b,
            forall|i: int|
                0 <= i < b ==> #[trigger] r@[i] == (
                    (i * BUCKET_SAMPLES) as usize,
                    if (i + 1) * BUCKET_SAMPLES < frames {
                        ((i + 1) * BUCKET_SAMPLES) as usize
                    } else {
                        frames
                    },
                ),
        decreases count - b,
    {
        assert(b * BUCKET_SAMPLES < frames + BUCKET_SAMPLES) by (nonlinear_arith)
            requires
                b < count,
                count == bucket_count(frames as nat),
        ;
        let start = b * BUCKET_SAMPLES;
        let next = start + BUCKET_SAMPLES;
        let end = if next < frames {
            next
        } else {
            frames
        };
        r.push((start, end));
        b += 1;
    }
    r
}

} // verus!
