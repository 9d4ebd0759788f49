//! Fixed-width big-endian codecs for the on-disk layout: integers, the
//! columnar timestamp/value streams, and length-prefixed string blocks.

use vstd::prelude::*;

verus! {

// ---------------------------------------------------------------------------
// Big-endian integer layouts.
// ---------------------------------------------------------------------------

/// The 8 bytes of `x` in big-endian order.
pub open spec fn u64_be(x: u64) -> Seq<u8> {
    seq![
        (x >> 56) as u8,
        (x >> 48) as u8,
        (x >> 40) as u8,
        (x >> 32) as u8,
        (x >> 24) as u8,
        (x >> 16) as u8,
        (x >> 8) as u8,
        x as u8,
    ]
}

/// The value whose big-endian bytes are `s` (first 8 bytes of `s`).
pub open spec fn u64_from_be(s: Seq<u8>) -> u64
    recommends
        s.len() == 8,
{
    (((s[0] as u64) << 56) | ((s[1] as u64) << 48) | ((s[2] as u64) << 40)
        | ((s[3] as u64) << 32) | ((s[4] as u64) << 24) | ((s[5] as u64) << 16)
        | ((s[6] as u64) << 8) | (s[7] as u64)) as u64
}

/// The 4 bytes of `x` in big-endian order.
pub open spec fn u32_be(x: u32) -> Seq<u8> {
    seq![(x >> 24) as u8, (x >> 16) as u8, (x >> 8) as u8, x as u8]
}

/// The value whose big-endian bytes are `s` (first 4 bytes of `s`).
pub open spec fn u32_from_be(s: Seq<u8>) -> u32
    recommends
        s.len() == 4,
{
    (((s[0] as u32) << 24) | ((s[1] as u32) << 16) | ((s[2] as u32) << 8) | (s[3] as u32)) as u32
}

/// The 2 bytes of `x` in big-endian order.
pub open spec fn u16_be(x: u16) -> Seq<u8> {
    seq![(x >> 8) as u8, x as u8]
}

/// The value whose big-endian bytes are `s` (first 2 bytes of `s`).
pub open spec fn u16_from_be(s: Seq<u8>) -> u16
    recommends
        s.len() == 2,
{
    (((s[0] as u16) << 8) | (s[1] as u16)) as u16
}

/// A timestamp is laid out as the big-endian bytes of its two's-complement
/// 64-bit pattern.
pub open spec fn i64_be(t: i64) -> Seq<u8> {
    u64_be(t as u64)
}

/// The timestamp whose big-endian bytes are `s`.
pub open spec fn i64_from_be(s: Seq<u8>) -> i64
    recommends
        s.len() == 8,
{
    u64_from_be(s) as i64
}

pub proof fn lemma_u64_be_round_trip(x: u64)
    ensures
        u64_from_be(u64_be(x)) == x,
{
    assert((((((x >> 56) as u8) as u64) << 56) | ((((x >> 48) as u8) as u64) << 48)
        | ((((x >> 40) as u8) as u64) << 40) | ((((x >> 32) as u8) as u64) << 32)
        | ((((x >> 24) as u8) as u64) << 24) | ((((x >> 16) as u8) as u64) << 16)
        | ((((x >> 8) as u8) as u64) << 8) | ((x as u8) as u64)) == x) by (bit_vector);
}

pub proof fn lemma_u32_be_round_trip(x: u32)
    ensures
        u32_from_be(u32_be(x)) == x,
{
    assert((((((x >> 24) as u8) as u32) << 24) | ((((x >> 16) as u8) as u32) << 16)
        | ((((x >> 8) as u8) as u32) << 8) | ((x as u8) as u32)) == x) by (bit_vector);
}

pub proof fn lemma_u16_be_round_trip(x: u16)
    ensures
        u16_from_be(u16_be(x)) == x,
{
    assert(((((x >> 8) as u8) as u16) << 8) | ((x as u8) as u16) == x) by (bit_vector);
}

pub proof fn lemma_i64_be_round_trip(t: i64)
    ensures
        i64_from_be(i64_be(t)) == t,
{
    lemma_u64_be_round_trip(t as u64);
    assert(((t as u64) as i64) == t) by (bit_vector);
}

/// Appends the big-endian bytes of `x` to `dst`.
pub fn put_u64_be(dst: &mut Vec<u8>, x: u64)
    requires
        old(dst)@.len() + 8 <= usize::MAX,
    ensures
        final(dst)@ == old(dst)@ + u64_be(x),
{
    dst.push((x >> 56) as u8);
    dst.push((x >> 48) as u8);
    dst.push((x >> 40) as u8);
    dst.push((x >> 32) as u8);
    dst.push((x >> 24) as u8);
    dst.push((x >> 16) as u8);
    dst.push((x >> 8) as u8);
    dst.push(x as u8);
    assert(final(dst)@ =~= old(dst)@ + u64_be(x));
}

/// Appends the big-endian bytes of `x` to `dst`.
pub fn put_u32_be(dst: &mut Vec<u8>, x: u32)
    requires
        old(dst)@.len() + 4 <= usize::MAX,
    ensures
        final(dst)@ == old(dst)@ + u32_be(x),
{
    dst.push((x >> 24) as u8);
    dst.push((x >> 16) as u8);
    dst.push((x >> 8) as u8);
    dst.push(x as u8);
    assert(final(dst)@ =~= old(dst)@ + u32_be(x));
}

/// Appends the big-endian bytes of `x` to `dst`.
pub fn put_u16_be(dst: &mut Vec<u8>, x: u16)
    requires
        old(dst)@.len() + 2 <= usize::MAX,
    ensures
        final(dst)@ == old(dst)@ + u16_be(x),
{
    dst.push((x >> 8) as u8);
    dst.push(x as u8);
    assert(final(dst)@ =~= old(dst)@ + u16_be(x));
}

/// Appends the big-endian bytes of the timestamp `t` to `dst`.
pub fn put_i64_be(dst: &mut Vec<u8>, t: i64)
    requires
        old(dst)@.len() + 8 <= usize::MAX,
    ensures
        final(dst)@ == old(dst)@ + i64_be(t),
{
    put_u64_be(dst, t as u64);
}

/// Reads the big-endian value stored at `src[at .. at + 8]`.
pub fn get_u64_be(src: &[u8], at: usize) -> (r: u64)
    requires
        at + 8 <= src@.len(),
    ensures
        r == u64_from_be(src@.subrange(at as int, at + 8)),
{
    let r = ((src[at] as u64) << 56) | ((src[at + 1] as u64) << 48) | ((src[at + 2] as u64) << 40)
        | ((src[at + 3] as u64) << 32) | ((src[at + 4] as u64) << 24)
        | ((src[at + 5] as u64) << 16) | ((src[at + 6] as u64) << 8) | (src[at + 7] as u64);
    proof {
        let s = src@.subrange(at as int, at + 8);
        assert(s[0] == src@[at as int] && s[1] == src@[at + 1] && s[2] == src@[at + 2]
            && s[3] == src@[at + 3] && s[4] == src@[at + 4] && s[5] == src@[at + 5]
            && s[6] == src@[at + 6] && s[7] == src@[at + 7]);
    }
    r
}

/// Reads the big-endian value stored at `src[at .. at + 4]`.
pub fn get_u32_be(src: &[u8], at: usize) -> (r: u32)
    requires
        at + 4 <= src@.len(),
    ensures
        r == u32_from_be(src@.subrange(at as int, at + 4)),
{
    let r = ((src[at] as u32) << 24) | ((src[at + 1] as u32) << 16) | ((src[at + 2] as u32) << 8)
        | (src[at + 3] as u32);
    proof {
        let s = src@.subrange(at as int, at + 4);
        assert(s[0] == src@[at as int] && s[1] == src@[at + 1] && s[2] == src@[at + 2]
            && s[3] == src@[at + 3]);
    }
    r
}

/// Reads the big-endian value stored at `src[at .. at + 2]`.
pub fn get_u16_be(src: &[u8], at: usize) -> (r: u16)
    requires
        at + 2 <= src@.len(),
    ensures
        r == u16_from_be(src@.subrange(at as int, at + 2)),
{
    let r = ((src[at] as u16) << 8) | (src[at + 1] as u16);
    proof {
        let s = src@.subrange(at as int, at + 2);
        assert(s[0] == src@[at as int] && s[1] == src@[at + 1]);
    }
    r
}

/// Reads the big-endian timestamp stored at `src[at .. at + 8]`.
pub fn get_i64_be(src: &[u8], at: usize) -> (r: i64)
    requires
        at + 8 <= src@.len(),
    ensures
        r == i64_from_be(src@.subrange(at as int, at + 8)),
{
    get_u64_be(src, at) as i64
}

// ---------------------------------------------------------------------------
// Columnar streams: a run of timestamps or of 64-bit value words, each
// element as 8 big-endian bytes.
// ---------------------------------------------------------------------------

/// The byte stream holding the timestamps `ts`, one 8-byte record each.
pub open spec fn ts_bytes(ts: Seq<i64>) -> Seq<u8>
    decreases ts.len(),
{
    if ts.len() == 0 {
        Seq::empty()
    } else {
        i64_be(ts[0]) + ts_bytes(ts.skip(1))
    }
}

/// The byte stream holding the value words `vs`, one 8-byte record each.
pub open spec fn vals_bytes(vs: Seq<u64>) -> Seq<u8>
    decreases vs.len(),
{
    if vs.len() == 0 {
        Seq::empty()
    } else {
        u64_be(vs[0]) + vals_bytes(vs.skip(1))
    }
}

/// The timestamps stored in the byte stream `b`, 8 bytes per record.
pub open spec fn ts_from_bytes(b: Seq<u8>) -> Seq<i64>
    decreases b.len(),
{
    if b.len() < 8 {
        Seq::empty()
    } else {
        seq![i64_from_be(b.subrange(0, 8))] + ts_from_bytes(b.skip(8))
    }
}

/// The value words stored in the byte stream `b`, 8 bytes per record.
pub open spec fn vals_from_bytes(b: Seq<u8>) -> Seq<u64>
    decreases b.len(),
{
    if b.len() < 8 {
        Seq::empty()
    } else {
        seq![u64_from_be(b.subrange(0, 8))] + vals_from_bytes(b.skip(8))
    }
}

pub proof fn lemma_ts_bytes_len(ts: Seq<i64>)
    ensures
        ts_bytes(ts).len() == 8 * ts.len(),
    decreases ts.len(),
{
    if ts.len() > 0 {
        lemma_ts_bytes_len(ts.skip(1));
    }
}

pub proof fn lemma_vals_bytes_len(vs: Seq<u64>)
    ensures
        vals_bytes(vs).len() == 8 * vs.len(),
    decreases vs.len(),
{
    if vs.len() > 0 {
        lemma_vals_bytes_len(vs.skip(1));
    }
}

/// Appending one timestamp to a run appends its 8 bytes to the stream.
pub proof fn lemma_ts_bytes_snoc(ts: Seq<i64>, t: i64)
    ensures
        ts_bytes(ts.push(t)) == ts_bytes(ts) + i64_be(t),
    decreases ts.len(),
{
    if ts.len() == 0 {
        assert(ts.push(t)[0] == t);
        assert(ts.push(t).skip(1) =~= Seq::<i64>::empty());
        assert(ts_bytes(ts.push(t)) == i64_be(t) + ts_bytes(Seq::<i64>::empty()));
        assert(i64_be(t) + ts_bytes(Seq::<i64>::empty()) =~= ts_bytes(ts) + i64_be(t));
    } else {
        assert(ts.push(t)[0] == ts[0]);
        assert(ts.push(t).skip(1) =~= ts.skip(1).push(t));
        lemma_ts_bytes_snoc(ts.skip(1), t);
        assert(ts_bytes(ts.push(t)) == i64_be(ts[0]) + (ts_bytes(ts.skip(1)) + i64_be(t)));
        assert(i64_be(ts[0]) + (ts_bytes(ts.skip(1)) + i64_be(t)) =~= (i64_be(ts[0]) + ts_bytes(
            ts.skip(1),
        )) + i64_be(t));
    }
}

/// Appending one value word to a run appends its 8 bytes to the stream.
pub proof fn lemma_vals_bytes_snoc(vs: Seq<u64>, v: u64)
    ensures
        vals_bytes(vs.push(v)) == vals_bytes(vs) + u64_be(v),
    decreases vs.len(),
{
    if vs.len() == 0 {
        assert(vs.push(v)[0] == v);
        assert(vs.push(v).skip(1) =~= Seq::<u64>::empty());
        assert(vals_bytes(vs.push(v)) == u64_be(v) + vals_bytes(Seq::<u64>::empty()));
        assert(u64_be(v) + vals_bytes(Seq::<u64>::empty()) =~= vals_bytes(vs) + u64_be(v));
    } else {
        assert(vs.push(v)[0] == vs[0]);
        assert(vs.push(v).skip(1) =~= vs.skip(1).push(v));
        lemma_vals_bytes_snoc(vs.skip(1), v);
        assert(vals_bytes(vs.push(v)) == u64_be(vs[0]) + (vals_bytes(vs.skip(1)) + u64_be(v)));
        assert(u64_be(vs[0]) + (vals_bytes(vs.skip(1)) + u64_be(v)) =~= (u64_be(vs[0]) + vals_bytes(
            vs.skip(1),
        )) + u64_be(v));
    }
}

/// Decoding a timestamp stream recovers exactly the timestamps encoded
/// into it.
pub proof fn lemma_ts_codec_round_trip(ts: Seq<i64>)
    ensures
        ts_from_bytes(ts_bytes(ts)) == ts,
    decreases ts.len(),
{
    if ts.len() == 0 {
    } else {
        let b = ts_bytes(ts);
        lemma_ts_bytes_len(ts.skip(1));
        assert(b.subrange(0, 8) =~= i64_be(ts[0]));
        assert(b.skip(8) =~= ts_bytes(ts.skip(1)));
        lemma_i64_be_round_trip(ts[0]);
        lemma_ts_codec_round_trip(ts.skip(1));
        assert(ts_from_bytes(b) =~= ts);
    }
}

/// Decoding a value stream recovers exactly the value words encoded into it.
pub proof fn lemma_vals_codec_round_trip(vs: Seq<u64>)
    ensures
        vals_from_bytes(vals_bytes(vs)) == vs,
    decreases vs.len(),
{
    if vs.len() == 0 {
    } else {
        let b = vals_bytes(vs);
        lemma_vals_bytes_len(vs.skip(1));
        assert(b.subrange(0, 8) =~= u64_be(vs[0]));
        assert(b.skip(8) =~= vals_bytes(vs.skip(1)));
        lemma_u64_be_round_trip(vs[0]);
        lemma_vals_codec_round_trip(vs.skip(1));
        assert(vals_from_bytes(b) =~= vs);
    }
}

/// Appends the timestamp stream of `ts[start .. end]` to `dst`.
pub fn encode_ts_range(dst: &mut Vec<u8>, ts: &Vec<i64>, start: usize, end: usize)
    requires
        start <= end <= ts@.len(),
        old(dst)@.len() + 8 * (end - start) <= usize::MAX,
    ensures
        final(dst)@ == old(dst)@ + ts_bytes(ts@.subrange(start as int, end as int)),
{
    let mut i: usize = start;
    proof {
        assert(ts@.subrange(start as int, start as int) =~= Seq::<i64>::empty());
    }
    while i < end
        invariant
            start <= i <= end <= ts@.len(),
            old(dst)@.len() + 8 * (end - start) <= usize::MAX,
            dst@ == old(dst)@ + ts_bytes(ts@.subrange(start as int, i as int)),
            dst@.len() == old(dst)@.len() + 8 * (i - start),
        decreases end - i,
    {
        proof {
            lemma_ts_bytes_len(ts@.subrange(start as int, i as int));
        }
        put_i64_be(dst, ts[i]);
        proof {
            assert(ts@.subrange(start as int, i + 1) =~= ts@.subrange(
                start as int,
                i as int,
            ).push(ts@[i as int]));
            lemma_ts_bytes_snoc(ts@.subrange(start as int, i as int), ts@[i as int]);
            lemma_ts_bytes_len(ts@.subrange(start as int, i + 1));
        }
        i = i + 1;
    }
}

/// Appends the value stream of `vs[start .. end]` to `dst`.
pub fn encode_vals_range(dst: &mut Vec<u8>, vs: &Vec<u64>, start: usize, end: usize)
    requires
        start <= end <= vs@.len(),
        old(dst)@.len() + 8 * (end - start) <= usize::MAX,
    ensures
        final(dst)@ == old(dst)@ + vals_bytes(vs@.subrange(start as int, end as int)),
{
    let mut i: usize = start;
    proof {
        assert(vs@.subrange(start as int, start as int) =~= Seq::<u64>::empty());
    }
    while i < end
        invariant
            start <= i <= end <= vs@.len(),
            old(dst)@.len() + 8 * (end - start) <= usize::MAX,
            dst@ == old(dst)@ + vals_bytes(vs@.subrange(start as int, i as int)),
            dst@.len() == old(dst)@.len() + 8 * (i - start),
        decreases end - i,
    {
        proof {
            lemma_vals_bytes_len(vs@.subrange(start as int, i as int));
        }
        put_u64_be(dst, vs[i]);
        proof {
            assert(vs@.subrange(start as int, i + 1) =~= vs@.subrange(
                start as int,
                i as int,
            ).push(vs@[i as int]));
            lemma_vals_bytes_snoc(vs@.subrange(start as int, i as int), vs@[i as int]);
            lemma_vals_bytes_len(vs@.subrange(start as int, i + 1));
        }
        i = i + 1;
    }
}

/// Decodes the timestamp stream `src[at .. at + 8 * count]`.
pub fn decode_ts_range(src: &[u8], at: usize, count: usize) -> (r: Vec<i64>)
    requires
        at + 8 * count <= src@.len(),
    ensures
        r@ == ts_from_bytes(src@.subrange(at as int, at + 8 * count)),
        r@.len() == count,
{
    let srclen = src.len();
    let region = Ghost(src@.subrange(at as int, at + 8 * count));
    let mut r: Vec<i64> = Vec::new();
    let mut i: usize = 0;
    proof {
        assert(region@.skip(0) =~= region@);
        assert(r@ + ts_from_bytes(region@) =~= ts_from_bytes(region@));
    }
    while i < count
        invariant
            i <= count,
            at + 8 * count <= srclen <= usize::MAX,
            srclen == src@.len(),
            region@ == src@.subrange(at as int, at + 8 * count),
            r@.len() == i,
            ts_from_bytes(region@) == r@ + ts_from_bytes(region@.skip(8 * i as int)),
        decreases count - i,
    {
        let t = get_i64_be(src, at + 8 * i);
        proof {
            let rem = region@.skip(8 * i as int);
            assert(rem.len() == 8 * (count - i));
            assert(rem.subrange(0, 8) =~= src@.subrange(at + 8 * i as int, at + 8 * i + 8));
            assert(rem.skip(8) =~= region@.skip(8 * (i + 1)));
            assert(ts_from_bytes(rem) == seq![i64_from_be(rem.subrange(0, 8))] + ts_from_bytes(
                rem.skip(8),
            ));
            assert(r@.push(t) + ts_from_bytes(region@.skip(8 * (i + 1))) =~= r@ + ts_from_bytes(
                rem,
            ));
        }
        r.push(t);
        i = i + 1;
    }
    proof {
        assert(region@.skip(8 * count as int) =~= Seq::<u8>::empty());
        assert(ts_from_bytes(region@) =~= r@);
    }
    r
}

// ---------------------------------------------------------------------------
// String blocks: variable-width values, each length-prefixed.
// ---------------------------------------------------------------------------

/// The views of a run of byte strings.
pub open spec fn strs_view(src: Seq<Vec<u8>>) -> Seq<Seq<u8>> {
    src.map_values(|v: Vec<u8>| v@)
}

/// The byte stream holding the byte strings `s`, each led by its 4-byte
/// big-endian length.
pub open spec fn str_blocks_bytes(s: Seq<Seq<u8>>) -> Seq<u8>
    decreases s.len(),
{
    if s.len() == 0 {
        Seq::empty()
    } else {
        u32_be(s[0].len() as u32) + s[0] + str_blocks_bytes(s.skip(1))
    }
}

/// The stream splits at any string boundary.
pub proof fn lemma_str_blocks_bytes_split(s: Seq<Seq<u8>>, i: int)
    requires
        0 <= i <= s.len(),
    ensures
        str_blocks_bytes(s) == str_blocks_bytes(s.take(i)) + str_blocks_bytes(s.skip(i)),
    decreases i,
{
    if i == 0 {
        assert(s.take(0) =~= Seq::<Seq<u8>>::empty());
        assert(s.skip(0) =~= s);
        assert(str_blocks_bytes(s.take(0)) + str_blocks_bytes(s) =~= str_blocks_bytes(s));
    } else {
        lemma_str_blocks_bytes_split(s.skip(1), i - 1);
        assert(s.skip(1).take(i - 1) =~= s.take(i).skip(1));
        assert(s.skip(1).skip(i - 1) =~= s.skip(i));
        assert(s.take(i)[0] == s[0]);
        assert(str_blocks_bytes(s.take(i)) == u32_be(s[0].len() as u32) + s[0] + str_blocks_bytes(
            s.take(i).skip(1),
        ));
        assert(u32_be(s[0].len() as u32) + s[0] + (str_blocks_bytes(s.take(i).skip(1))
            + str_blocks_bytes(s.skip(i))) =~= (u32_be(s[0].len() as u32) + s[0]
            + str_blocks_bytes(s.take(i).skip(1))) + str_blocks_bytes(s.skip(i)));
    }
}

/// Appends the length-prefixed byte strings of `src` to `dst`.
pub fn string_encode(src: &Vec<Vec<u8>>, dst: &mut Vec<u8>)
    requires
        forall|i: int| 0 <= i < src@.len() ==> (#[trigger] src@[i])@.len() <= u32::MAX,
        old(dst)@.len() + str_blocks_bytes(strs_view(src@)).len() <= usize::MAX,
    ensures
        final(dst)@ == old(dst)@ + str_blocks_bytes(strs_view(src@)),
{
    let ghost sv = strs_view(src@);
    let n = src.len();
    let mut i: usize = 0;
    proof {
        assert(sv.take(0) =~= Seq::<Seq<u8>>::empty());
        assert(dst@ + str_blocks_bytes(sv.take(0)) =~= dst@);
    }
    while i < n
        invariant
            i <= n,
            n == src@.len(),
            sv == strs_view(src@),
            forall|j: int| 0 <= j < src@.len() ==> (#[trigger] src@[j])@.len() <= u32::MAX,
            old(dst)@.len() + str_blocks_bytes(sv).len() <= usize::MAX,
            dst@ == old(dst)@ + str_blocks_bytes(sv.take(i as int)),
        decreases n - i,
    {
        proof {
            lemma_str_blocks_bytes_split(sv, i as int);
            assert(sv.skip(i as int)[0] == sv[i as int]);
            assert(sv.skip(i as int).skip(1) =~= sv.skip(i + 1));
            assert(str_blocks_bytes(sv.skip(i as int)) == u32_be(sv[i as int].len() as u32)
                + sv[i as int] + str_blocks_bytes(sv.skip(i + 1)));
            assert(sv[i as int] == src@[i as int]@);
            lemma_str_blocks_bytes_split(sv, i + 1);
            assert(sv.take(i + 1).take(i as int) =~= sv.take(i as int));
            lemma_str_blocks_bytes_split(sv.take(i + 1), i as int);
            assert(sv.take(i + 1).skip(i as int) =~= seq![sv[i as int]]);
            assert(seq![sv[i as int]].skip(1) =~= Seq::<Seq<u8>>::empty());
            assert(str_blocks_bytes(seq![sv[i as int]]) =~= u32_be(sv[i as int].len() as u32)
                + sv[i as int]);
        }
        let s: &Vec<u8> = &src[i];
        put_u32_be(dst, s.len() as u32);
        dst.extend_from_slice(s.as_slice());
        proof {
            assert(dst@ =~= old(dst)@ + str_blocks_bytes(sv.take(i + 1)));
        }
        i = i + 1;
    }
    proof {
        assert(sv.take(n as int) =~= sv);
    }
}

/// Decodes the value stream `src[at .. at + 8 * count]`.
pub fn decode_vals_range(src: &[u8], at: usize, count: usize) -> (r: Vec<u64>)
    requires
        at + 8 * count <= src@.len(),
    ensures
        r@ == vals_from_bytes(src@.subrange(at as int, at + 8 * count)),
        r@.len() == count,
{
    let srclen = src.len();
    let region = Ghost(src@.subrange(at as int, at + 8 * count));
    let mut r: Vec<u64> = Vec::new();
    let mut i: usize = 0;
    proof {
        assert(region@.skip(0) =~= region@);
        assert(r@ + vals_from_bytes(region@) =~= vals_from_bytes(region@));
    }
    while i < count
        invariant
            i <= count,
            at + 8 * count <= srclen <= usize::MAX,
            srclen == src@.len(),
            region@ == src@.subrange(at as int, at + 8 * count),
            r@.len() == i,
            vals_from_bytes(region@) == r@ + vals_from_bytes(region@.skip(8 * i as int)),
        decreases count - i,
    {
        let v = get_u64_be(src, at + 8 * i);
        proof {
            let rem = region@.skip(8 * i as int);
            assert(rem.len() == 8 * (count - i));
            assert(rem.subrange(0, 8) =~= src@.subrange(at + 8 * i as int, at + 8 * i + 8));
            assert(rem.skip(8) =~= region@.skip(8 * (i + 1)));
            assert(vals_from_bytes(rem) == seq![u64_from_be(rem.subrange(0, 8))] + vals_from_bytes(
                rem.skip(8),
            ));
            assert(r@.push(v) + vals_from_bytes(region@.skip(8 * (i + 1))) =~= r@ + vals_from_bytes(
                rem,
            ));
        }
        r.push(v);
        i = i + 1;
    }
    proof {
        assert(region@.skip(8 * count as int) =~= Seq::<u8>::empty());
        assert(vals_from_bytes(region@) =~= r@);
    }
    r
}

} // verus!
