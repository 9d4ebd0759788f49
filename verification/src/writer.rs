//! The three sequential build stages of a TSM file, sharing one cursor:
//! block writer, index builder, footer builder.
//!
//! A TSM file is composed of four sections: header, blocks, index and footer.
//!
//! ```text
//! +--------+------------------------------------+-------------+------------+
//! | Header |               Blocks               |    Index    |   Footer   |
//! |5 bytes |              N bytes               |   N bytes   |  8 bytes   |
//! +--------+------------------------------------+-------------+------------+
//!
//! Header:  4-byte magic, 1-byte version.
//! Block:   4-byte CRC of the timestamp buffer, the timestamp buffer,
//!          4-byte CRC of the value buffer, the value buffer.
//! Index:   per field: 8-byte field id, 1-byte type, 2-byte block count,
//!          then per block: 8-byte min time, 8-byte max time, 8-byte offset,
//!          8-byte size.
//! Footer:  8-byte offset of the index section.
//! ```
//!
//! All multi-byte integers are big-endian.

use vstd::prelude::*;

use crate::block::{DataBlock, FileBlock};
use crate::codec::{
    i64_be, ts_bytes, u16_be, u32_be, u64_be, vals_bytes,
};
use crate::crc::crc32_of;
use crate::cursor::FileCursor;
use crate::error::Error;
use crate::{HEADER_LEN, MAX_BLOCK_VALUES, TSM_MAGIC, VERSION};

verus! {

// ---------------------------------------------------------------------------
// The byte layout, as spec-level serializers.
// ---------------------------------------------------------------------------

/// The 5 header bytes: magic constant, then version.
pub open spec fn header_bytes() -> Seq<u8> {
    u32_be(TSM_MAGIC) + seq![VERSION]
}

/// One persisted sub-block: each encoded buffer is led by the 4 big-endian
/// bytes of its CRC32.
pub open spec fn sub_block_bytes(tsb: Seq<u8>, vb: Seq<u8>) -> Seq<u8> {
    u32_be(crc32_of(tsb)) + tsb + u32_be(crc32_of(vb)) + vb
}

/// The end of sub-block `i` of a run of `len` values: chunks hold
/// `MAX_BLOCK_VALUES` values each, the last one whatever remains.
pub open spec fn chunk_end(len: int, i: int) -> int {
    if (i + 1) * (MAX_BLOCK_VALUES as int) < len {
        (i + 1) * (MAX_BLOCK_VALUES as int)
    } else {
        len
    }
}

/// How many sub-blocks a run of `len >= 1` values yields.
pub open spec fn num_sub_blocks(len: int) -> int {
    (len - 1) / (MAX_BLOCK_VALUES as int) + 1
}

/// The blocks-section bytes of one data block: its run split into chunks of
/// at most `MAX_BLOCK_VALUES` values, each chunk checksummed and encoded.
pub open spec fn data_block_bytes(ts: Seq<i64>, vs: Seq<u64>) -> Seq<u8>
    recommends
        ts.len() == vs.len(),
    decreases ts.len(),
{
    let max = MAX_BLOCK_VALUES as int;
    if ts.len() == 0 {
        Seq::empty()
    } else if ts.len() <= max {
        sub_block_bytes(ts_bytes(ts), vals_bytes(vs))
    } else {
        sub_block_bytes(ts_bytes(ts.take(max)), vals_bytes(vs.take(max))) + data_block_bytes(
            ts.skip(max),
            vs.skip(max),
        )
    }
}

/// The 32 index bytes describing one persisted sub-block.
pub open spec fn block_entry_bytes(b: FileBlock) -> Seq<u8> {
    i64_be(b.min_ts) + i64_be(b.max_ts) + u64_be(b.offset) + u64_be(b.size)
}

/// The index bytes of a run of sub-block descriptors.
pub open spec fn block_entries_bytes(blks: Seq<FileBlock>) -> Seq<u8>
    decreases blks.len(),
{
    if blks.len() == 0 {
        Seq::empty()
    } else {
        block_entry_bytes(blks[0]) + block_entries_bytes(blks.skip(1))
    }
}

/// One index record: field id, the value-type tag of the group's first
/// descriptor, the block count, then one 32-byte entry per block.
pub open spec fn group_bytes(fid: u64, blks: Seq<FileBlock>) -> Seq<u8>
    recommends
        1 <= blks.len() <= u16::MAX,
{
    u64_be(fid) + seq![blks[0].filed_type] + u16_be(blks.len() as u16) + block_entries_bytes(blks)
}

/// The whole index section: one record per field group, in the given order.
pub open spec fn index_bytes(groups: Seq<(u64, Seq<FileBlock>)>) -> Seq<u8>
    decreases groups.len(),
{
    if groups.len() == 0 {
        Seq::empty()
    } else {
        group_bytes(groups[0].0, groups[0].1) + index_bytes(groups.skip(1))
    }
}

/// The view of an ordered field-id-to-blocks association.
pub open spec fn groups_view(g: Seq<(u64, Vec<FileBlock>)>) -> Seq<(u64, Seq<FileBlock>)> {
    g.map_values(|p: (u64, Vec<FileBlock>)| (p.0, p.1@))
}

/// A writable association: every group holds at least one descriptor and no
/// more than the 2-byte count can say.
pub open spec fn wf_groups(groups: Seq<(u64, Seq<FileBlock>)>) -> bool {
    forall|i: int| 0 <= i < groups.len() ==> 1 <= (#[trigger] groups[i]).1.len() <= u16::MAX
}

pub proof fn lemma_block_entries_bytes_len(blks: Seq<FileBlock>)
    ensures
        block_entries_bytes(blks).len() == 32 * blks.len(),
    decreases blks.len(),
{
    if blks.len() > 0 {
        lemma_block_entries_bytes_len(blks.skip(1));
    }
}

pub proof fn lemma_block_entries_bytes_snoc(blks: Seq<FileBlock>, b: FileBlock)
    ensures
        block_entries_bytes(blks.push(b)) == block_entries_bytes(blks) + block_entry_bytes(b),
    decreases blks.len(),
{
    if blks.len() == 0 {
        assert(blks.push(b)[0] == b);
        assert(blks.push(b).skip(1) =~= Seq::<FileBlock>::empty());
        assert(block_entries_bytes(blks.push(b)) == block_entry_bytes(b) + block_entries_bytes(
            Seq::<FileBlock>::empty(),
        ));
        assert(block_entry_bytes(b) + block_entries_bytes(Seq::<FileBlock>::empty())
            =~= block_entries_bytes(blks) + block_entry_bytes(b));
    } else {
        assert(blks.push(b)[0] == blks[0]);
        assert(blks.push(b).skip(1) =~= blks.skip(1).push(b));
        lemma_block_entries_bytes_snoc(blks.skip(1), b);
        assert(block_entries_bytes(blks.push(b)) == block_entry_bytes(blks[0])
            + (block_entries_bytes(blks.skip(1)) + block_entry_bytes(b)));
        assert(block_entry_bytes(blks[0]) + (block_entries_bytes(blks.skip(1)) + block_entry_bytes(
            b,
        )) =~= (block_entry_bytes(blks[0]) + block_entries_bytes(blks.skip(1))) + block_entry_bytes(
            b,
        ));
    }
}

/// How the block-splitting arithmetic behaves: at least one chunk, the last
/// chunk starts before `len`, and the chunks cover `len`.
pub proof fn lemma_num_sub_blocks(len: int)
    requires
        len >= 1,
    ensures
        num_sub_blocks(len) >= 1,
        (num_sub_blocks(len) - 1) * (MAX_BLOCK_VALUES as int) < len,
        len <= num_sub_blocks(len) * (MAX_BLOCK_VALUES as int),
{
    let max = MAX_BLOCK_VALUES as int;
    let q = (len - 1) / max;
    vstd::arithmetic::div_mod::lemma_fundamental_div_mod(len - 1, max);
    vstd::arithmetic::div_mod::lemma_mod_bound(len - 1, max);
    assert(len - 1 == max * q + (len - 1) % max);
}

/// Splitting one chunk off a run longer than a chunk leaves one chunk fewer.
pub proof fn lemma_num_sub_blocks_step(len: int)
    requires
        len > MAX_BLOCK_VALUES,
    ensures
        num_sub_blocks(len) == 1 + num_sub_blocks(len - MAX_BLOCK_VALUES),
{
    let max = MAX_BLOCK_VALUES as int;
    vstd::arithmetic::div_mod::lemma_div_plus_one(len - 1 - max, max);
}

/// The blocks section of a run of `len >= 1` values takes exactly
/// `16 * len` payload bytes plus 8 checksum bytes per sub-block.
pub proof fn lemma_data_block_bytes_len(ts: Seq<i64>, vs: Seq<u64>)
    requires
        ts.len() == vs.len(),
    ensures
        ts.len() == 0 ==> data_block_bytes(ts, vs).len() == 0,
        ts.len() >= 1 ==> data_block_bytes(ts, vs).len() == 16 * ts.len() + 8 * num_sub_blocks(
            ts.len() as int,
        ),
    decreases ts.len(),
{
    let max = MAX_BLOCK_VALUES as int;
    if ts.len() == 0 {
    } else if ts.len() <= max {
        crate::codec::lemma_ts_bytes_len(ts);
        crate::codec::lemma_vals_bytes_len(vs);
        lemma_num_sub_blocks(ts.len() as int);
        assert(num_sub_blocks(ts.len() as int) == 1);
    } else {
        crate::codec::lemma_ts_bytes_len(ts.take(max));
        crate::codec::lemma_vals_bytes_len(vs.take(max));
        lemma_data_block_bytes_len(ts.skip(max), vs.skip(max));
        lemma_num_sub_blocks_step(ts.len() as int);
    }
}

/// The index section splits at any group boundary.
pub proof fn lemma_index_bytes_split(groups: Seq<(u64, Seq<FileBlock>)>, i: int)
    requires
        0 <= i <= groups.len(),
    ensures
        index_bytes(groups) == index_bytes(groups.take(i)) + index_bytes(groups.skip(i)),
    decreases i,
{
    if i == 0 {
        assert(groups.take(0) =~= Seq::<(u64, Seq<FileBlock>)>::empty());
        assert(groups.skip(0) =~= groups);
        assert(index_bytes(groups.take(0)) + index_bytes(groups) =~= index_bytes(groups));
    } else {
        lemma_index_bytes_split(groups.skip(1), i - 1);
        assert(groups.skip(1).take(i - 1) =~= groups.take(i).skip(1));
        assert(groups.skip(1).skip(i - 1) =~= groups.skip(i));
        assert(groups.take(i)[0] == groups[0]);
        assert(index_bytes(groups.take(i)) == group_bytes(groups[0].0, groups[0].1) + index_bytes(
            groups.take(i).skip(1),
        ));
        assert(index_bytes(groups) == group_bytes(groups[0].0, groups[0].1) + (index_bytes(
            groups.take(i).skip(1),
        ) + index_bytes(groups.skip(i))));
        assert(group_bytes(groups[0].0, groups[0].1) + (index_bytes(groups.take(i).skip(1))
            + index_bytes(groups.skip(i))) =~= (group_bytes(groups[0].0, groups[0].1) + index_bytes(
            groups.take(i).skip(1),
        )) + index_bytes(groups.skip(i)));
    }
}

// ---------------------------------------------------------------------------
// Footer builder.
// ---------------------------------------------------------------------------

/// Writes the fixed-size trailer recording the index section's start.
pub struct FooterBuilder {
    writer: FileCursor,
}

impl FooterBuilder {
    /// The cursor this builder drives.
    pub closed spec fn cursor(self) -> FileCursor {
        self.writer
    }

    pub fn new(writer: FileCursor) -> (r: Self)
        ensures
            r.cursor() == writer,
    {
        Self { writer }
    }

    /// Appends the 8 big-endian bytes of the index start offset as the
    /// file's final bytes.
    pub fn build(&mut self, offset: u64) -> (r: Result<(), Error>)
        requires
            old(self).cursor().wf(),
            old(self).cursor().spec_pos() == old(self).cursor().bytes().len(),
            old(self).cursor().bytes().len() + 8 <= usize::MAX,
        ensures
            r is Ok,
            final(self).cursor().wf(),
            final(self).cursor().bytes() == old(self).cursor().bytes() + u64_be(offset),
            final(self).cursor().spec_pos() == final(self).cursor().bytes().len(),
    {
        let mut buf: Vec<u8> = Vec::new();
        crate::codec::put_u64_be(&mut buf, offset);
        let res = self.writer.write(buf.as_slice());
        proof {
            assert(final(self).cursor().bytes() =~= old(self).cursor().bytes() + u64_be(offset));
        }
        res
    }

    /// Hands the cursor back once this stage is done.
    pub fn into_inner(self) -> (r: FileCursor)
        ensures
            r == self.cursor(),
    {
        self.writer
    }
}

// ---------------------------------------------------------------------------
// Index builder.
// ---------------------------------------------------------------------------

/// Serializes the seekable index section summarizing every persisted block's
/// location and time range, grouped by field id.
pub struct TsmIndexBuilder {
    writer: FileCursor,
}

impl TsmIndexBuilder {
    /// The cursor this builder drives.
    pub closed spec fn cursor(self) -> FileCursor {
        self.writer
    }

    pub fn new(writer: FileCursor) -> (r: Self)
        ensures
            r.cursor() == writer,
    {
        Self { writer }
    }

    /// Appends one index record per field group, in the order given, and
    /// returns the index section's starting offset.
    pub fn build(&mut self, indexs: Vec<(u64, Vec<FileBlock>)>) -> (r: Result<u64, Error>)
        requires
            old(self).cursor().wf(),
            old(self).cursor().spec_pos() == old(self).cursor().bytes().len(),
            wf_groups(groups_view(indexs@)),
            old(self).cursor().bytes().len() + index_bytes(groups_view(indexs@)).len()
                <= usize::MAX,
        ensures
            r matches Ok(off) ==> off == old(self).cursor().bytes().len(),
            r is Ok,
            final(self).cursor().wf(),
            final(self).cursor().bytes() == old(self).cursor().bytes() + index_bytes(
                groups_view(indexs@),
            ),
            final(self).cursor().spec_pos() == final(self).cursor().bytes().len(),
    {
        let ghost gv = groups_view(indexs@);
        let ghost base = self.writer.bytes();
        let res = self.writer.pos();
        let n = indexs.len();
        let mut i: usize = 0;
        proof {
            assert(gv.take(0) =~= Seq::<(u64, Seq<FileBlock>)>::empty());
            assert(base + index_bytes(gv.take(0)) =~= base);
        }
        while i < n
            invariant
                i <= n,
                n == indexs@.len(),
                gv == groups_view(indexs@),
                wf_groups(gv),
                base.len() + index_bytes(gv).len() <= usize::MAX,
                self.writer.wf(),
                self.writer.spec_pos() == self.writer.bytes().len(),
                self.writer.bytes() == base + index_bytes(gv.take(i as int)),
            decreases n - i,
        {
            proof {
                lemma_index_bytes_split(gv, i as int);
                assert(gv.skip(i as int)[0] == gv[i as int]);
                assert(gv.skip(i as int).skip(1) =~= gv.skip(i + 1));
                assert(index_bytes(gv.skip(i as int)) == group_bytes(gv[i as int].0, gv[i as int].1)
                    + index_bytes(gv.skip(i + 1)));
                lemma_index_bytes_split(gv, i + 1);
                assert(gv.take(i + 1).take(i as int) =~= gv.take(i as int));
                lemma_index_bytes_split(gv.take(i + 1), i as int);
                assert(gv.take(i + 1).skip(i as int) =~= seq![gv[i as int]]);
                assert(seq![gv[i as int]].skip(1) =~= Seq::<(u64, Seq<FileBlock>)>::empty());
                assert(index_bytes(seq![gv[i as int]]) =~= group_bytes(
                    gv[i as int].0,
                    gv[i as int].1,
                ));
            }
            let fid: u64 = indexs[i].0;
            let blks: &Vec<FileBlock> = &indexs[i].1;
            proof {
                assert(gv[i as int] == (indexs@[i as int].0, indexs@[i as int].1@));
                assert(blks@ == gv[i as int].1);
                assert(1 <= blks@.len() <= u16::MAX);
                lemma_block_entries_bytes_len(blks@);
            }
            let typ: u8 = blks[0].filed_type;
            let cnt: u16 = blks.len() as u16;
            let mut buf: Vec<u8> = Vec::new();
            crate::codec::put_u64_be(&mut buf, fid);
            buf.push(typ);
            crate::codec::put_u16_be(&mut buf, cnt);
            let ghost head = buf@;
            proof {
                assert(head =~= u64_be(fid) + seq![blks@[0].filed_type] + u16_be(
                    blks@.len() as u16,
                ));
                assert(buf@ + block_entries_bytes(blks@.take(0)) =~= buf@);
                assert(blks@.take(0) =~= Seq::<FileBlock>::empty());
            }
            let m = blks.len();
            let mut j: usize = 0;
            while j < m
                invariant
                    j <= m,
                    m == blks@.len(),
                    m <= u16::MAX,
                    head.len() == 11,
                    buf@ == head + block_entries_bytes(blks@.take(j as int)),
                    buf@.len() == 11 + 32 * j,
                decreases m - j,
            {
                let b = blks[j];
                crate::codec::put_i64_be(&mut buf, b.min_ts);
                crate::codec::put_i64_be(&mut buf, b.max_ts);
                crate::codec::put_u64_be(&mut buf, b.offset);
                crate::codec::put_u64_be(&mut buf, b.size);
                proof {
                    assert(blks@.take(j + 1) =~= blks@.take(j as int).push(b));
                    lemma_block_entries_bytes_snoc(blks@.take(j as int), b);
                    lemma_block_entries_bytes_len(blks@.take(j + 1));
                    assert(buf@ =~= head + block_entries_bytes(blks@.take(j + 1)));
                }
                j = j + 1;
            }
            proof {
                assert(blks@.take(m as int) =~= blks@);
                assert(buf@ =~= group_bytes(gv[i as int].0, gv[i as int].1));
            }
            let wres = self.writer.write(buf.as_slice());
            proof {
                assert(self.writer.bytes() =~= base + index_bytes(gv.take(i as int)) + buf@);
                assert(base + index_bytes(gv.take(i as int)) + buf@ =~= base + index_bytes(
                    gv.take(i + 1),
                ));
            }
            match wres {
                Ok(()) => {},
                Err(e) => {
                    return Err(e);
                },
            }
            i = i + 1;
        }
        proof {
            assert(gv.take(n as int) =~= gv);
        }
        Ok(res)
    }

    /// Hands the cursor back once this stage is done.
    pub fn into_inner(self) -> (r: FileCursor)
        ensures
            r == self.cursor(),
    {
        self.writer
    }
}

// ---------------------------------------------------------------------------
// Block writer.
// ---------------------------------------------------------------------------

/// The bytes that precede a data block's sub-blocks: the 5-byte header when
/// the cursor still stands at or before it (a fresh file), the untouched
/// buffer otherwise.
pub open spec fn write_base(c: FileCursor) -> Seq<u8> {
    if c.spec_pos() <= HEADER_LEN {
        header_bytes()
    } else {
        c.bytes()
    }
}

/// What one sub-block descriptor promises: its tag and time range match the
/// chunk, its size counts the two encoded buffers, its offset points at the
/// chunk's leading checksum, and the file holds the chunk's bytes there.
#[verifier::opaque]
pub open spec fn descriptor_correct(
    file: Seq<u8>,
    ts: Seq<i64>,
    vs: Seq<u64>,
    base_len: int,
    ft: u8,
    i: int,
    b: FileBlock,
) -> bool {
    let max = MAX_BLOCK_VALUES as int;
    let cs = i * max;
    let ce = chunk_end(ts.len() as int, i);
    &&& b.filed_type == ft
    &&& b.reader_idx == 0
    &&& b.min_ts == ts[cs]
    &&& b.max_ts == ts[ce - 1]
    &&& 1 <= ce - cs <= max
    &&& b.size == 16 * (ce - cs)
    &&& b.offset == base_len + i * (8 + 16 * max)
    &&& b.offset + 8 + b.size <= file.len()
    &&& file.subrange(b.offset as int, b.offset + 8 + b.size) == sub_block_bytes(
        ts_bytes(ts.subrange(cs, ce)),
        vals_bytes(vs.subrange(cs, ce)),
    )
}

/// A file that begins with the 5 header bytes begins with them however many
/// blocks, index records and footer bytes are appended after: together with
/// `TsmBlockWriter::build`'s contract, the header stands exactly once, at
/// offset 0, no matter how many data blocks one file receives.
pub proof fn lemma_header_stable(file: Seq<u8>, appended: Seq<u8>)
    requires
        file.len() >= 5,
        file.subrange(0, 5) == header_bytes(),
    ensures
        (file + appended).len() >= 5,
        (file + appended).subrange(0, 5) == header_bytes(),
{
    assert((file + appended).subrange(0, 5) =~= file.subrange(0, 5));
}

/// A file built as the header followed by anything starts with the header.
pub proof fn lemma_header_prefix(rest: Seq<u8>)
    ensures
        (header_bytes() + rest).len() >= 5,
        (header_bytes() + rest).subrange(0, 5) == header_bytes(),
{
    assert((header_bytes() + rest).subrange(0, 5) =~= header_bytes());
}

/// How the chunks of a run of `len` values partition it: every chunk holds
/// between 1 and `MAX_BLOCK_VALUES` values, consecutive chunks meet exactly,
/// and the last chunk ends at `len`.
pub proof fn lemma_chunk_partition(len: int, i: int)
    requires
        1 <= len,
        0 <= i < num_sub_blocks(len),
    ensures
        i * (MAX_BLOCK_VALUES as int) < chunk_end(len, i) <= len,
        1 <= chunk_end(len, i) - i * (MAX_BLOCK_VALUES as int) <= MAX_BLOCK_VALUES as int,
        i + 1 < num_sub_blocks(len) ==> chunk_end(len, i) == (i + 1) * (MAX_BLOCK_VALUES as int),
        i + 1 == num_sub_blocks(len) ==> chunk_end(len, i) == len,
{
    let max = MAX_BLOCK_VALUES as int;
    let n = num_sub_blocks(len);
    lemma_num_sub_blocks(len);
    assert((i + 1) * max == i * max + max) by (nonlinear_arith);
    vstd::arithmetic::mul::lemma_mul_inequality(i, n - 1, max);
    vstd::arithmetic::mul::lemma_mul_inequality(i + 1, n, max);
    if i + 1 < n {
        vstd::arithmetic::mul::lemma_mul_inequality(i + 1, n - 1, max);
    }
}

/// Serializing a run from `start` on splits off exactly the chunk
/// `[start, end)` followed by the serialization of the rest.
pub proof fn lemma_chunk_unfold(ts: Seq<i64>, vs: Seq<u64>, start: int, end: int)
    requires
        ts.len() == vs.len(),
        0 <= start < end <= ts.len(),
        end == if ts.len() - start <= MAX_BLOCK_VALUES as int {
            ts.len() as int
        } else {
            start + MAX_BLOCK_VALUES as int
        },
    ensures
        data_block_bytes(ts.skip(start), vs.skip(start)) == sub_block_bytes(
            ts_bytes(ts.subrange(start, end)),
            vals_bytes(vs.subrange(start, end)),
        ) + data_block_bytes(ts.skip(end), vs.skip(end)),
{
    let max = MAX_BLOCK_VALUES as int;
    let rem_ts = ts.skip(start);
    let rem_vs = vs.skip(start);
    let chunk_ts = ts.subrange(start, end);
    let chunk_vs = vs.subrange(start, end);
    if rem_ts.len() <= max {
        assert(end == ts.len());
        assert(rem_ts =~= chunk_ts);
        assert(rem_vs =~= chunk_vs);
        assert(ts.skip(end) =~= Seq::<i64>::empty());
        assert(vs.skip(end) =~= Seq::<u64>::empty());
        assert(sub_block_bytes(ts_bytes(chunk_ts), vals_bytes(chunk_vs)) + Seq::<u8>::empty()
            =~= sub_block_bytes(ts_bytes(chunk_ts), vals_bytes(chunk_vs)));
    } else {
        assert(end == start + max);
        assert(rem_ts.take(max) =~= chunk_ts);
        assert(rem_vs.take(max) =~= chunk_vs);
        assert(rem_ts.skip(max) =~= ts.skip(end));
        assert(rem_vs.skip(max) =~= vs.skip(end));
    }
}

/// Appending one encoded chunk keeps the running serialization equation: the
/// buffer plus what remains to serialize equals the base plus the whole
/// serialization, and the sizes stay within what that equation allows.
pub proof fn lemma_step_equation(
    base: Seq<u8>,
    before: Seq<u8>,
    out: Seq<u8>,
    ts: Seq<i64>,
    vs: Seq<u64>,
    start: int,
    end: int,
)
    requires
        ts.len() == vs.len(),
        0 <= start < end <= ts.len(),
        end == if ts.len() - start <= MAX_BLOCK_VALUES as int {
            ts.len() as int
        } else {
            start + MAX_BLOCK_VALUES as int
        },
        before + data_block_bytes(ts.skip(start), vs.skip(start)) == base + data_block_bytes(
            ts,
            vs,
        ),
        out == sub_block_bytes(
            ts_bytes(ts.subrange(start, end)),
            vals_bytes(vs.subrange(start, end)),
        ),
    ensures
        (before + out) + data_block_bytes(ts.skip(end), vs.skip(end)) == base + data_block_bytes(
            ts,
            vs,
        ),
        before.len() + out.len() + data_block_bytes(ts.skip(end), vs.skip(end)).len() == base.len()
            + data_block_bytes(ts, vs).len(),
        out.len() == 8 + 16 * (end - start),
{
    let tail = data_block_bytes(ts.skip(end), vs.skip(end));
    lemma_chunk_unfold(ts, vs, start, end);
    assert((before + out) + tail =~= before + (out + tail));
    assert((before + (out + tail)).len() == before.len() + out.len() + tail.len());
    assert((base + data_block_bytes(ts, vs)).len() == base.len() + data_block_bytes(ts, vs).len());
    crate::codec::lemma_ts_bytes_len(ts.subrange(start, end));
    crate::codec::lemma_vals_bytes_len(vs.subrange(start, end));
}

/// The descriptor of a sub-block just appended at the end of the file is
/// correct for the grown file.
pub proof fn lemma_descriptor_new(
    before: Seq<u8>,
    out: Seq<u8>,
    ts: Seq<i64>,
    vs: Seq<u64>,
    base_len: int,
    ft: u8,
    i: int,
    b: FileBlock,
)
    requires
        ts.len() == vs.len(),
        0 <= i,
        i * (MAX_BLOCK_VALUES as int) < ts.len(),
        b.offset == before.len(),
        before.len() == base_len + i * (8 + 16 * (MAX_BLOCK_VALUES as int)),
        b.filed_type == ft,
        b.reader_idx == 0,
        b.min_ts == ts[i * (MAX_BLOCK_VALUES as int)],
        b.max_ts == ts[chunk_end(ts.len() as int, i) - 1],
        b.size == 16 * (chunk_end(ts.len() as int, i) - i * (MAX_BLOCK_VALUES as int)),
        out == sub_block_bytes(
            ts_bytes(
                ts.subrange(i * (MAX_BLOCK_VALUES as int), chunk_end(ts.len() as int, i)),
            ),
            vals_bytes(
                vs.subrange(i * (MAX_BLOCK_VALUES as int), chunk_end(ts.len() as int, i)),
            ),
        ),
        out.len() == 8 + b.size,
    ensures
        descriptor_correct(before + out, ts, vs, base_len, ft, i, b),
{
    reveal(descriptor_correct);
    let max = MAX_BLOCK_VALUES as int;
    let cs = i * max;
    let ce = chunk_end(ts.len() as int, i);
    assert(cs < ce <= ts.len() && ce <= cs + max);
    assert((before + out).subrange(b.offset as int, b.offset + 8 + b.size) =~= out);
}

/// A descriptor stays correct when more bytes are appended to the file.
pub proof fn lemma_descriptor_append(
    file: Seq<u8>,
    ext: Seq<u8>,
    ts: Seq<i64>,
    vs: Seq<u64>,
    base_len: int,
    ft: u8,
    j: int,
    b: FileBlock,
)
    requires
        descriptor_correct(file, ts, vs, base_len, ft, j, b),
    ensures
        descriptor_correct(file + ext, ts, vs, base_len, ft, j, b),
{
    reveal(descriptor_correct);
    assert((file + ext).subrange(b.offset as int, b.offset + 8 + b.size) =~= file.subrange(
        b.offset as int,
        b.offset + 8 + b.size,
    ));
}

/// Splits one data block into bounded-size sub-blocks, checksums and appends
/// each to the cursor, and reports one descriptor per sub-block.
pub struct TsmBlockWriter {
    writer: FileCursor,
}

impl TsmBlockWriter {
    /// The cursor this writer drives.
    pub closed spec fn cursor(self) -> FileCursor {
        self.writer
    }

    pub fn new(writer: FileCursor) -> (r: Self)
        ensures
            r.cursor() == writer,
    {
        Self { writer }
    }

    /// Checksums and appends the encoded chunk `[start, end)` of `block` as
    /// one sub-block, and reports where and what it wrote.
    fn write_chunk(&mut self, block: &DataBlock, start: usize, end: usize) -> (r: Result<
        FileBlock,
        Error,
    >)
        requires
            old(self).cursor().wf(),
            old(self).cursor().spec_pos() == old(self).cursor().bytes().len(),
            block.wf(),
            start < end <= block.timestamps().len(),
            old(self).cursor().bytes().len() + 8 + 16 * (end - start) <= usize::MAX,
        ensures
            r is Ok,
            final(self).cursor().wf(),
            final(self).cursor().spec_pos() == final(self).cursor().bytes().len(),
            final(self).cursor().bytes() == old(self).cursor().bytes() + sub_block_bytes(
                ts_bytes(block.timestamps().subrange(start as int, end as int)),
                vals_bytes(block.values().subrange(start as int, end as int)),
            ),
            r matches Ok(fb) ==> {
                &&& fb.min_ts == block.timestamps()[start as int]
                &&& fb.max_ts == block.timestamps()[end - 1]
                &&& fb.offset == old(self).cursor().bytes().len()
                &&& fb.filed_type == block.spec_filed_type()
                &&& fb.size == 16 * (end - start)
                &&& fb.reader_idx == 0
            },
    {
        let ghost chunk_ts = block.timestamps().subrange(start as int, end as int);
        let ghost chunk_vs = block.values().subrange(start as int, end as int);
        let (min_ts, max_ts) = block.time_range(start, end);
        let (ts_buf, val_buf) = match block.encode(start, end) {
            Ok(bufs) => bufs,
            Err(e) => {
                proof {
                    assert(false);
                }
                return Err(e);
            },
        };
        let offset = self.writer.pos();
        let ghost before = self.writer.bytes();
        let mut out: Vec<u8> = Vec::new();
        let c1 = crate::crc::crc32(ts_buf.as_slice());
        crate::codec::put_u32_be(&mut out, c1);
        out.extend_from_slice(ts_buf.as_slice());
        let c2 = crate::crc::crc32(val_buf.as_slice());
        crate::codec::put_u32_be(&mut out, c2);
        out.extend_from_slice(val_buf.as_slice());
        proof {
            assert(Seq::<u8>::empty() + u32_be(c1) =~= u32_be(c1));
            assert(out@ == sub_block_bytes(ts_bytes(chunk_ts), vals_bytes(chunk_vs)));
        }
        match self.writer.write(out.as_slice()) {
            Ok(()) => {},
            Err(e) => {
                return Err(e);
            },
        }
        proof {
            assert(self.writer.bytes() =~= before + out@);
        }
        let size = ts_buf.len() + val_buf.len();
        Ok(
            FileBlock {
                min_ts,
                max_ts,
                offset,
                filed_type: block.filed_type(),
                size: size as u64,
                reader_idx: 0,
            },
        )
    }

    /// Persists one non-empty data block: writes the 5-byte header first on a
    /// fresh file, then one checksummed sub-block per chunk of at most
    /// `MAX_BLOCK_VALUES` values, and returns the descriptors in file order.
    #[verifier::rlimit(100)]
    pub fn build(&mut self, block: DataBlock) -> (r: Result<Vec<FileBlock>, Error>)
        requires
            old(self).cursor().wf(),
            old(self).cursor().spec_pos() == old(self).cursor().bytes().len(),
            block.wf(),
            block.timestamps().len() >= 1,
            write_base(old(self).cursor()).len() + data_block_bytes(
                block.timestamps(),
                block.values(),
            ).len() <= usize::MAX,
        ensures
            r is Ok,
            final(self).cursor().wf(),
            final(self).cursor().spec_pos() == final(self).cursor().bytes().len(),
            final(self).cursor().bytes() == write_base(old(self).cursor()) + data_block_bytes(
                block.timestamps(),
                block.values(),
            ),
            old(self).cursor().spec_pos() > HEADER_LEN ==> final(self).cursor().bytes().subrange(
                0,
                old(self).cursor().bytes().len() as int,
            ) == old(self).cursor().bytes(),
            r matches Ok(blocks) ==> {
                &&& blocks@.len() == num_sub_blocks(block.timestamps().len() as int)
                &&& forall|i: int|
                    0 <= i < blocks@.len() ==> descriptor_correct(
                        final(self).cursor().bytes(),
                        block.timestamps(),
                        block.values(),
                        write_base(old(self).cursor()).len() as int,
                        block.spec_filed_type(),
                        i,
                        #[trigger] blocks@[i],
                    )
            },
    {
        let ghost ts = block.timestamps();
        let ghost vs = block.values();
        let filed_type = block.filed_type();
        let len = block.len();
        let n = (len - 1) / MAX_BLOCK_VALUES + 1;
        proof {
            lemma_num_sub_blocks(len as int);
        }
        // A fresh file first gets its header; once the cursor has advanced
        // past it, the header is never rewritten.
        if self.writer.pos() <= HEADER_LEN {
            match self.writer.seek(0) {
                Ok(()) => {},
                Err(e) => {
                    return Err(e);
                },
            }
            let mut hbuf: Vec<u8> = Vec::new();
            crate::codec::put_u32_be(&mut hbuf, TSM_MAGIC);
            hbuf.push(VERSION);
            proof {
                assert(hbuf@ =~= header_bytes());
            }
            match self.writer.write(hbuf.as_slice()) {
                Ok(()) => {},
                Err(e) => {
                    return Err(e);
                },
            }
            proof {
                assert(self.writer.bytes() =~= header_bytes());
            }
        }
        let ghost base = write_base(old(self).cursor());
        proof {
            assert(self.writer.bytes() == base);
        }
        let mut res: Vec<FileBlock> = Vec::new();
        let mut i: usize = 0;
        let mut last_index: usize = 0;
        proof {
            assert(ts.skip(0) =~= ts);
            assert(vs.skip(0) =~= vs);
        }
        while i < n
            invariant
                i <= n,
                n == num_sub_blocks(len as int),
                len == ts.len(),
                ts.len() == vs.len(),
                len >= 1,
                8 * len <= usize::MAX,
                ts == block.timestamps(),
                vs == block.values(),
                filed_type == block.spec_filed_type(),
                block.wf(),
                last_index as int == if i * (MAX_BLOCK_VALUES as int) < len {
                    i * (MAX_BLOCK_VALUES as int)
                } else {
                    len as int
                },
                self.writer.wf(),
                self.writer.spec_pos() == self.writer.bytes().len(),
                base.len() + data_block_bytes(ts, vs).len() <= usize::MAX,
                self.writer.bytes() + data_block_bytes(
                    ts.skip(last_index as int),
                    vs.skip(last_index as int),
                ) == base + data_block_bytes(ts, vs),
                i < n ==> self.writer.bytes().len() == base.len() + i * (8 + 16
                    * MAX_BLOCK_VALUES as int),
                res@.len() == i,
                forall|j: int|
                    0 <= j < i ==> descriptor_correct(
                        self.writer.bytes(),
                        ts,
                        vs,
                        base.len() as int,
                        filed_type,
                        j,
                        #[trigger] res@[j],
                    ),
            decreases n - i,
        {
            let start = last_index;
            let end = if len - start > MAX_BLOCK_VALUES {
                start + MAX_BLOCK_VALUES
            } else {
                len
            };
            proof {
                lemma_num_sub_blocks(len as int);
                assert((i + 1) * (MAX_BLOCK_VALUES as int) == i * (MAX_BLOCK_VALUES as int) + (
                MAX_BLOCK_VALUES as int)) by (nonlinear_arith);
                assert(i * (MAX_BLOCK_VALUES as int) <= (n - 1) * (MAX_BLOCK_VALUES as int)) by {
                    vstd::arithmetic::mul::lemma_mul_inequality(
                        i as int,
                        n - 1,
                        MAX_BLOCK_VALUES as int,
                    );
                }
                assert(start as int == i * (MAX_BLOCK_VALUES as int));
                assert(end as int == chunk_end(len as int, i as int));
                if i + 1 < n {
                    assert((i + 1) * (MAX_BLOCK_VALUES as int) <= (n - 1) * (
                    MAX_BLOCK_VALUES as int)) by {
                        vstd::arithmetic::mul::lemma_mul_inequality(
                            i + 1,
                            n - 1,
                            MAX_BLOCK_VALUES as int,
                        );
                    }
                    assert(end == start + MAX_BLOCK_VALUES);
                }
            }
            // The chunk about to be written is the head of what remains to
            // serialize; the step equation also bounds the buffer's growth.
            let ghost chunk_ts = ts.subrange(start as int, end as int);
            let ghost chunk_vs = vs.subrange(start as int, end as int);
            let ghost out = sub_block_bytes(ts_bytes(chunk_ts), vals_bytes(chunk_vs));
            let ghost before = self.writer.bytes();
            proof {
                lemma_step_equation(base, before, out, ts, vs, start as int, end as int);
            }
            let fb = match self.write_chunk(&block, start, end) {
                Ok(fb) => fb,
                Err(e) => {
                    proof {
                        assert(false);
                    }
                    return Err(e);
                },
            };
            let ghost res0 = res@;
            res.push(fb);
            proof {
                let max = MAX_BLOCK_VALUES as int;
                lemma_descriptor_new(
                    before,
                    out,
                    ts,
                    vs,
                    base.len() as int,
                    filed_type,
                    i as int,
                    fb,
                );
                assert(descriptor_correct(
                    self.writer.bytes(),
                    ts,
                    vs,
                    base.len() as int,
                    filed_type,
                    i as int,
                    fb,
                ));
                assert forall|j: int| 0 <= j < i implies descriptor_correct(
                    self.writer.bytes(),
                    ts,
                    vs,
                    base.len() as int,
                    filed_type,
                    j,
                    res@[j],
                ) by {
                    assert(res@[j] == res0[j]);
                    assert(descriptor_correct(before, ts, vs, base.len() as int, filed_type, j, res@[j]));
                    lemma_descriptor_append(
                        before,
                        out,
                        ts,
                        vs,
                        base.len() as int,
                        filed_type,
                        j,
                        res@[j],
                    );
                }
                if i + 1 < n {
                    assert((i + 1) * (8 + 16 * max) == i * (8 + 16 * max) + (8 + 16
                        * max)) by (nonlinear_arith);
                    assert(self.writer.bytes().len() == base.len() + (i + 1) * (8 + 16 * max)) by {
                        assert(out.len() == 8 + 16 * max);
                        assert(before.len() == base.len() + i * (8 + 16 * max));
                    }
                    assert((i + 1) * max < len);
                }
            }
            last_index = end;
            i = i + 1;
        }
        proof {
            assert(ts.skip(len as int) =~= Seq::<i64>::empty());
            assert(vs.skip(len as int) =~= Seq::<u64>::empty());
            assert(self.writer.bytes() + Seq::<u8>::empty() =~= self.writer.bytes());
            assert(self.writer.bytes() == base + data_block_bytes(ts, vs));
            if old(self).cursor().spec_pos() > HEADER_LEN {
                assert(self.writer.bytes().subrange(
                    0,
                    old(self).cursor().bytes().len() as int,
                ) =~= old(self).cursor().bytes());
            }
        }
        Ok(res)
    }

    /// Hands the cursor back once this stage is done.
    pub fn into_inner(self) -> (r: FileCursor)
        ensures
            r == self.cursor(),
    {
        self.writer
    }
}

} // verus!
