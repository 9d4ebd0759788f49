//! The symmetric reader: recover the index from a finished file's footer,
//! and each block's values from its descriptor, verifying every checksum.

use vstd::prelude::*;
use vstd::slice::slice_subrange;

use crate::block::FileBlock;
use crate::codec::{
    i64_from_be, ts_from_bytes, u16_from_be, u32_from_be, u64_from_be, vals_from_bytes,
};
use crate::crc::crc32_of;
use crate::error::Error;
use crate::writer::{groups_view, index_bytes};
use crate::MAX_BLOCK_VALUES;

verus! {

/// The index start offset a finished file's trailing 8 bytes record.
pub open spec fn footer_offset(file: Seq<u8>) -> u64
    recommends
        file.len() >= 8,
{
    u64_from_be(file.subrange(file.len() - 8, file.len() as int))
}

/// The descriptors stored in a run of 32-byte index entries, all tagged with
/// the record's value type; a trailing fragment shorter than an entry is
/// ignored.
pub open spec fn parse_block_entries(b: Seq<u8>, typ: u8) -> Seq<FileBlock>
    decreases b.len(),
{
    if b.len() < 32 {
        Seq::empty()
    } else {
        seq![
            FileBlock {
                min_ts: i64_from_be(b.subrange(0, 8)),
                max_ts: i64_from_be(b.subrange(8, 16)),
                offset: u64_from_be(b.subrange(16, 24)),
                filed_type: typ,
                size: u64_from_be(b.subrange(24, 32)),
                reader_idx: 0,
            },
        ] + parse_block_entries(b.skip(32), typ)
    }
}

/// The field groups stored in an index section, or nothing when a record
/// overruns the section.
pub open spec fn parse_index(b: Seq<u8>) -> Option<Seq<(u64, Seq<FileBlock>)>>
    decreases b.len(),
{
    if b.len() == 0 {
        Some(Seq::empty())
    } else if b.len() < 11 {
        None
    } else {
        let fid = u64_from_be(b.subrange(0, 8));
        let typ = b[8];
        let cnt = u16_from_be(b.subrange(9, 11)) as int;
        if b.len() < 11 + 32 * cnt {
            None
        } else {
            let blks = parse_block_entries(b.subrange(11, 11 + 32 * cnt), typ);
            match parse_index(b.skip(11 + 32 * cnt)) {
                None => None,
                Some(rest) => Some(seq![(fid, blks)] + rest),
            }
        }
    }
}

/// A descriptor addresses a well-laid-out block region: the two checksums
/// and the payload lie inside the file, and the payload splits evenly into
/// the two equal-width streams.
pub open spec fn block_region_ok(file: Seq<u8>, b: FileBlock) -> bool {
    &&& b.offset + 8 + b.size <= file.len()
    &&& b.size % 16 == 0
}

/// The timestamp stream a descriptor addresses (its checksum skipped).
pub open spec fn ts_region(file: Seq<u8>, b: FileBlock) -> Seq<u8> {
    file.subrange(b.offset + 4, b.offset + 4 + b.size / 2)
}

/// The value stream a descriptor addresses (its checksum skipped).
pub open spec fn val_region(file: Seq<u8>, b: FileBlock) -> Seq<u8> {
    file.subrange(b.offset + 8 + b.size / 2, b.offset + 8 + b.size)
}

/// The stored checksum of a descriptor's timestamp stream.
pub open spec fn stored_ts_crc(file: Seq<u8>, b: FileBlock) -> u32 {
    u32_from_be(file.subrange(b.offset as int, b.offset + 4))
}

/// The stored checksum of a descriptor's value stream.
pub open spec fn stored_val_crc(file: Seq<u8>, b: FileBlock) -> u32 {
    u32_from_be(file.subrange(b.offset + 4 + b.size / 2, b.offset + 8 + b.size / 2))
}

/// A group the index serialization can carry and recover: a block count the
/// 2-byte field can say, one tag shared by the group (the index stores only
/// the first descriptor's), and descriptors not yet owned by any reader.
pub open spec fn group_readable(g: (u64, Seq<FileBlock>)) -> bool {
    &&& 1 <= g.1.len() <= u16::MAX
    &&& forall|j: int|
        0 <= j < g.1.len() ==> ((#[trigger] g.1[j]).filed_type == g.1[0].filed_type && g.1[
            j].reader_idx == 0)
}

pub open spec fn groups_readable(groups: Seq<(u64, Seq<FileBlock>)>) -> bool {
    forall|i: int| 0 <= i < groups.len() ==> group_readable(#[trigger] groups[i])
}

/// Footer round trip: the footer written after any prefix reads back as the
/// offset it recorded.
pub proof fn lemma_footer_round_trip(pre: Seq<u8>, off: u64)
    ensures
        footer_offset(pre + crate::codec::u64_be(off)) == off,
{
    let file = pre + crate::codec::u64_be(off);
    assert(file.subrange(file.len() - 8, file.len() as int) =~= crate::codec::u64_be(off));
    crate::codec::lemma_u64_be_round_trip(off);
}

/// Entry round trip: parsing the 32-byte entries written for a run of
/// descriptors recovers exactly those descriptors.
pub proof fn lemma_parse_block_entries_round_trip(blks: Seq<FileBlock>, typ: u8)
    requires
        forall|j: int|
            0 <= j < blks.len() ==> ((#[trigger] blks[j]).filed_type == typ && blks[j].reader_idx
                == 0),
    ensures
        parse_block_entries(crate::writer::block_entries_bytes(blks), typ) == blks,
    decreases blks.len(),
{
    if blks.len() == 0 {
    } else {
        let b = crate::writer::block_entries_bytes(blks);
        let e = crate::writer::block_entry_bytes(blks[0]);
        crate::writer::lemma_block_entries_bytes_len(blks.skip(1));
        assert(b.subrange(0, 8) =~= crate::codec::i64_be(blks[0].min_ts));
        assert(b.subrange(8, 16) =~= crate::codec::i64_be(blks[0].max_ts));
        assert(b.subrange(16, 24) =~= crate::codec::u64_be(blks[0].offset));
        assert(b.subrange(24, 32) =~= crate::codec::u64_be(blks[0].size));
        assert(b.skip(32) =~= crate::writer::block_entries_bytes(blks.skip(1)));
        crate::codec::lemma_i64_be_round_trip(blks[0].min_ts);
        crate::codec::lemma_i64_be_round_trip(blks[0].max_ts);
        crate::codec::lemma_u64_be_round_trip(blks[0].offset);
        crate::codec::lemma_u64_be_round_trip(blks[0].size);
        lemma_parse_block_entries_round_trip(blks.skip(1), typ);
        assert(parse_block_entries(b, typ) =~= blks);
    }
}

/// Index round trip: parsing the index section written for any readable
/// groups recovers exactly those groups, with no trailing garbage accepted.
pub proof fn lemma_parse_index_round_trip(groups: Seq<(u64, Seq<FileBlock>)>)
    requires
        groups_readable(groups),
    ensures
        parse_index(index_bytes(groups)) == Some(groups),
    decreases groups.len(),
{
    if groups.len() == 0 {
        assert(index_bytes(groups).len() == 0);
        assert(parse_index(index_bytes(groups)) =~= Some(Seq::<(u64, Seq<FileBlock>)>::empty()));
        assert(groups =~= Seq::<(u64, Seq<FileBlock>)>::empty());
    } else {
        let fid = groups[0].0;
        let blks = groups[0].1;
        let cnt = blks.len() as int;
        let b = index_bytes(groups);
        let g = crate::writer::group_bytes(fid, blks);
        crate::writer::lemma_block_entries_bytes_len(blks);
        assert(g.len() == 11 + 32 * cnt);
        assert(b == g + index_bytes(groups.skip(1)));
        assert(b.len() >= 11 + 32 * cnt);
        assert(b.subrange(0, 8) =~= crate::codec::u64_be(fid));
        assert(b[8] == blks[0].filed_type);
        assert(b.subrange(9, 11) =~= crate::codec::u16_be(blks.len() as u16));
        crate::codec::lemma_u64_be_round_trip(fid);
        crate::codec::lemma_u16_be_round_trip(blks.len() as u16);
        assert(u16_from_be(b.subrange(9, 11)) as int == cnt);
        assert(b.subrange(11, 11 + 32 * cnt) =~= crate::writer::block_entries_bytes(blks));
        lemma_parse_block_entries_round_trip(blks, blks[0].filed_type);
        assert(b.skip(11 + 32 * cnt) =~= index_bytes(groups.skip(1)));
        assert(groups_readable(groups.skip(1)));
        lemma_parse_index_round_trip(groups.skip(1));
        assert(parse_index(b) == Some(seq![(fid, blks)] + groups.skip(1)));
        assert(seq![(fid, blks)] + groups.skip(1) =~= groups);
    }
}

/// File round trip: a file laid out as header, blocks, index and footer —
/// the shape the three build stages leave behind — surrenders its index
/// offset through the footer and its groups through the index, exactly.
/// With `lemma_block_read_round_trip` applied to each descriptor, reading a
/// finished file back reproduces every (timestamp, value) pair written.
pub proof fn lemma_tsm_file_round_trip(
    blocks: Seq<u8>,
    groups: Seq<(u64, Seq<FileBlock>)>,
    index_offset: u64,
)
    requires
        groups_readable(groups),
        index_offset == crate::writer::header_bytes().len() + blocks.len(),
        crate::writer::header_bytes().len() + blocks.len() + index_bytes(groups).len() + 8
            <= u64::MAX,
    ensures
        ({
            let file = crate::writer::header_bytes() + blocks + index_bytes(groups)
                + crate::codec::u64_be(index_offset);
            &&& footer_offset(file) == index_offset
            &&& index_offset + 8 <= file.len()
            &&& parse_index(file.subrange(index_offset as int, file.len() - 8)) == Some(groups)
        }),
{
    let file = crate::writer::header_bytes() + blocks + index_bytes(groups)
        + crate::codec::u64_be(index_offset);
    assert(file.subrange(file.len() - 8, file.len() as int) =~= crate::codec::u64_be(
        index_offset,
    ));
    crate::codec::lemma_u64_be_round_trip(index_offset);
    assert(file.subrange(index_offset as int, file.len() - 8) =~= index_bytes(groups));
    lemma_parse_index_round_trip(groups);
}

/// Block round trip: a descriptor reported by the block writer addresses a
/// well-laid-out region whose stored checksums match its streams, and
/// decoding those streams yields exactly the chunk the writer encoded.
pub proof fn lemma_block_read_round_trip(
    file: Seq<u8>,
    ts: Seq<i64>,
    vs: Seq<u64>,
    base_len: int,
    ft: u8,
    i: int,
    b: FileBlock,
)
    requires
        ts.len() == vs.len(),
        0 <= i,
        crate::writer::descriptor_correct(file, ts, vs, base_len, ft, i, b),
    ensures
        block_region_ok(file, b),
        stored_ts_crc(file, b) == crc32_of(ts_region(file, b)),
        stored_val_crc(file, b) == crc32_of(val_region(file, b)),
        ts_from_bytes(ts_region(file, b)) == ts.subrange(
            i * (MAX_BLOCK_VALUES as int),
            crate::writer::chunk_end(ts.len() as int, i),
        ),
        vals_from_bytes(val_region(file, b)) == vs.subrange(
            i * (MAX_BLOCK_VALUES as int),
            crate::writer::chunk_end(ts.len() as int, i),
        ),
{
    reveal(crate::writer::descriptor_correct);
    let max = MAX_BLOCK_VALUES as int;
    let cs = i * max;
    let ce = crate::writer::chunk_end(ts.len() as int, i);
    vstd::arithmetic::mul::lemma_mul_nonnegative(i, max);
    assert(0 <= cs < ce <= ts.len());
    let chunk_ts = ts.subrange(cs, ce);
    let chunk_vs = vs.subrange(cs, ce);
    let tsb = crate::codec::ts_bytes(chunk_ts);
    let vb = crate::codec::vals_bytes(chunk_vs);
    let region = file.subrange(b.offset as int, b.offset + 8 + b.size);
    crate::codec::lemma_ts_bytes_len(chunk_ts);
    crate::codec::lemma_vals_bytes_len(chunk_vs);
    assert(b.size == 16 * (ce - cs));
    assert(b.size % 16 == 0) by {
        vstd::arithmetic::div_mod::lemma_mod_multiples_basic(ce - cs, 16);
    }
    assert(b.size / 2 == 8 * (ce - cs));
    assert(region == crate::writer::sub_block_bytes(tsb, vb));
    assert(ts_region(file, b) =~= region.subrange(4, 4 + 8 * (ce - cs)));
    assert(region.subrange(4, 4 + 8 * (ce - cs)) =~= tsb);
    assert(val_region(file, b) =~= region.subrange(8 + 8 * (ce - cs), 8 + 16 * (ce - cs)));
    assert(region.subrange(8 + 8 * (ce - cs), 8 + 16 * (ce - cs)) =~= vb);
    assert(file.subrange(b.offset as int, b.offset + 4) =~= region.subrange(0, 4));
    assert(region.subrange(0, 4) =~= crate::codec::u32_be(crc32_of(tsb)));
    assert(file.subrange(b.offset + 4 + b.size / 2, b.offset + 8 + b.size / 2) =~= region.subrange(
        4 + 8 * (ce - cs),
        8 + 8 * (ce - cs),
    ));
    assert(region.subrange(4 + 8 * (ce - cs), 8 + 8 * (ce - cs)) =~= crate::codec::u32_be(
        crc32_of(vb),
    ));
    crate::codec::lemma_u32_be_round_trip(crc32_of(tsb));
    crate::codec::lemma_u32_be_round_trip(crc32_of(vb));
    crate::codec::lemma_ts_codec_round_trip(chunk_ts);
    crate::codec::lemma_vals_codec_round_trip(chunk_vs);
}

/// Reads the trailing 8 bytes as the index start offset; rejected when the
/// file cannot hold a footer or the offset points past it.
pub fn read_footer(file: &Vec<u8>) -> (r: Result<u64, Error>)
    ensures
        r is Ok <==> (file@.len() >= 8 && footer_offset(file@) <= file@.len() - 8),
        r matches Ok(off) ==> off == footer_offset(file@),
        r is Err ==> r == Err::<u64, Error>(Error::LayoutErr),
{
    if file.len() < 8 {
        return Err(Error::LayoutErr);
    }
    let at = file.len() - 8;
    let off = crate::codec::get_u64_be(file.as_slice(), at);
    if off > at as u64 {
        return Err(Error::LayoutErr);
    }
    Ok(off)
}

/// Parses the index section `[index_start, len - 8)` of a finished file back
/// into its field groups, exactly as `parse_index` describes; rejected when
/// the region does not exist or a record overruns it.
#[verifier::rlimit(50)]
pub fn read_index(file: &Vec<u8>, index_start: u64) -> (r: Result<
    Vec<(u64, Vec<FileBlock>)>,
    Error,
>)
    ensures
        r is Ok <==> (file@.len() >= 8 && index_start + 8 <= file@.len() && parse_index(
            file@.subrange(index_start as int, file@.len() - 8),
        ) is Some),
        r matches Ok(gs) ==> Some(groups_view(gs@)) == parse_index(
            file@.subrange(index_start as int, file@.len() - 8),
        ),
        r is Err ==> r == Err::<Vec<(u64, Vec<FileBlock>)>, Error>(Error::LayoutErr),
{
    if file.len() < 8 {
        return Err(Error::LayoutErr);
    }
    let end = file.len() - 8;
    if index_start > end as u64 {
        return Err(Error::LayoutErr);
    }
    let start = index_start as usize;
    let ghost region = file@.subrange(start as int, end as int);
    let mut acc: Vec<(u64, Vec<FileBlock>)> = Vec::new();
    let mut p: usize = start;
    proof {
        assert(region.skip(0) =~= region);
        assert(groups_view(acc@) =~= Seq::<(u64, Seq<FileBlock>)>::empty());
        if parse_index(region) is Some {
            assert(groups_view(acc@) + parse_index(region)->Some_0 =~= parse_index(
                region,
            )->Some_0);
        }
    }
    while p < end
        invariant
            start <= p <= end <= file@.len(),
            end == file@.len() - 8,
            start as int == index_start as int,
            region == file@.subrange(start as int, end as int),
            parse_index(region) == (match parse_index(region.skip(p - start)) {
                Some(rest) => Some(groups_view(acc@) + rest),
                None => None::<Seq<(u64, Seq<FileBlock>)>>,
            }),
        decreases end - p,
    {
        let ghost rem = region.skip(p - start);
        if end - p < 11 {
            proof {
                assert(rem.len() == end - p);
                assert(0 < rem.len() < 11);
                assert(parse_index(rem) is None);
                assert(parse_index(region) is None);
            }
            return Err(Error::LayoutErr);
        }
        let fid = crate::codec::get_u64_be(file.as_slice(), p);
        let typ = file[p + 8];
        let cnt = crate::codec::get_u16_be(file.as_slice(), p + 9);
        let cnt_sz = (cnt as usize) * 32;
        proof {
            assert(rem.len() == end - p >= 11);
            assert(rem.subrange(0, 8) =~= file@.subrange(p as int, p + 8));
            assert(rem[8] == file@[p + 8]);
            assert(rem.subrange(9, 11) =~= file@.subrange(p + 9, p + 11));
        }
        if end - p - 11 < cnt_sz {
            proof {
                assert(rem.len() < 11 + 32 * (cnt as int));
                assert(cnt == u16_from_be(rem.subrange(9, 11)));
                assert(parse_index(rem) is None);
                assert(parse_index(region) is None);
            }
            return Err(Error::LayoutErr);
        }
        let entries_start = p + 11;
        let mut blks: Vec<FileBlock> = Vec::new();
        let ghost entries = region.skip(p - start).subrange(11, 11 + 32 * (cnt as int));
        proof {
            assert(entries =~= file@.subrange(entries_start as int, entries_start + 32 * (
            cnt as int)));
            assert(entries.skip(0) =~= entries);
            assert(blks@ + parse_block_entries(entries, typ) =~= parse_block_entries(
                entries,
                typ,
            ));
        }
        let mut j: usize = 0;
        while j < cnt as usize
            invariant
                j <= cnt as usize,
                entries_start + 32 * (cnt as int) <= end <= file@.len(),
                entries == file@.subrange(
                    entries_start as int,
                    entries_start + 32 * (cnt as int),
                ),
                blks@.len() == j,
                parse_block_entries(entries, typ) == blks@ + parse_block_entries(
                    entries.skip(32 * j as int),
                    typ,
                ),
            decreases cnt as usize - j,
        {
            let at = entries_start + 32 * j;
            let b = FileBlock {
                min_ts: crate::codec::get_i64_be(file.as_slice(), at),
                max_ts: crate::codec::get_i64_be(file.as_slice(), at + 8),
                offset: crate::codec::get_u64_be(file.as_slice(), at + 16),
                filed_type: typ,
                size: crate::codec::get_u64_be(file.as_slice(), at + 24),
                reader_idx: 0,
            };
            proof {
                let erem = entries.skip(32 * j as int);
                assert(erem.len() == 32 * ((cnt as int) - j));
                assert(erem.subrange(0, 8) =~= file@.subrange(at as int, at + 8));
                assert(erem.subrange(8, 16) =~= file@.subrange(at + 8, at + 16));
                assert(erem.subrange(16, 24) =~= file@.subrange(at + 16, at + 24));
                assert(erem.subrange(24, 32) =~= file@.subrange(at + 24, at + 32));
                assert(erem.skip(32) =~= entries.skip(32 * (j + 1)));
                assert(blks@.push(b) + parse_block_entries(entries.skip(32 * (j + 1)), typ)
                    =~= blks@ + parse_block_entries(erem, typ));
            }
            blks.push(b);
            j = j + 1;
        }
        proof {
            assert(entries.skip(32 * (cnt as int)) =~= Seq::<u8>::empty());
            assert(blks@ + Seq::<FileBlock>::empty() =~= blks@);
            assert(blks@ == parse_block_entries(entries, typ));
        }
        let ghost acc0 = acc@;
        acc.push((fid, blks));
        proof {
            assert(rem.skip(11 + 32 * (cnt as int)) =~= region.skip(p + 11 + 32 * (cnt as int)
                - start));
            assert(parse_index(rem) == (match parse_index(
                region.skip(p + 11 + 32 * (cnt as int) - start),
            ) {
                Some(rest) => Some(seq![(fid, blks@)] + rest),
                None => None::<Seq<(u64, Seq<FileBlock>)>>,
            }));
            assert(groups_view(acc@) =~= groups_view(acc0).push((fid, blks@)));
            if parse_index(region.skip(p + 11 + 32 * (cnt as int) - start)) is Some {
                let rest = parse_index(region.skip(p + 11 + 32 * (cnt as int) - start))->Some_0;
                assert(groups_view(acc0) + (seq![(fid, blks@)] + rest) =~= groups_view(acc0).push(
                    (fid, blks@),
                ) + rest);
            }
        }
        p = p + 11 + cnt_sz;
    }
    proof {
        assert(region.skip(end - start) =~= Seq::<u8>::empty());
        assert(parse_index(region) == Some(groups_view(acc@)));
        assert(groups_view(acc@) + Seq::<(u64, Seq<FileBlock>)>::empty() =~= groups_view(acc@));
    }
    Ok(acc)
}

/// Seeks to a descriptor's block, verifies both stored checksums against the
/// bytes on disk, and decodes the two streams. A bad region is a layout
/// error; a checksum mismatch is corruption, reported without any data.
pub fn read_block(file: &Vec<u8>, blk: &FileBlock) -> (r: Result<(Vec<i64>, Vec<u64>), Error>)
    ensures
        !block_region_ok(file@, *blk) ==> r == Err::<(Vec<i64>, Vec<u64>), Error>(
            Error::LayoutErr,
        ),
        block_region_ok(file@, *blk) ==> {
            &&& r is Ok <==> (stored_ts_crc(file@, *blk) == crc32_of(ts_region(file@, *blk))
                && stored_val_crc(file@, *blk) == crc32_of(val_region(file@, *blk)))
            &&& r is Err ==> r == Err::<(Vec<i64>, Vec<u64>), Error>(Error::CorruptionErr)
            &&& r matches Ok(p) ==> p.0@ == ts_from_bytes(ts_region(file@, *blk)) && p.1@
                == vals_from_bytes(val_region(file@, *blk))
        },
{
    let flen = file.len();
    if blk.size > u64::MAX - 8 || blk.offset > u64::MAX - 8 - blk.size {
        return Err(Error::LayoutErr);
    }
    if blk.offset + 8 + blk.size > flen as u64 || blk.size % 16 != 0 {
        return Err(Error::LayoutErr);
    }
    let off = blk.offset as usize;
    let size = blk.size as usize;
    let half = size / 2;
    let stored_tc = crate::codec::get_u32_be(file.as_slice(), off);
    let tsr = slice_subrange(file.as_slice(), off + 4, off + 4 + half);
    let computed_tc = crate::crc::crc32(tsr);
    if stored_tc != computed_tc {
        return Err(Error::CorruptionErr);
    }
    let stored_vc = crate::codec::get_u32_be(file.as_slice(), off + 4 + half);
    let vr = slice_subrange(file.as_slice(), off + 8 + half, off + 8 + size);
    let computed_vc = crate::crc::crc32(vr);
    if stored_vc != computed_vc {
        return Err(Error::CorruptionErr);
    }
    let count = half / 8;
    proof {
        assert(8 * (half as int / 8) == half as int) by {
            assert(blk.size % 16 == 0);
            assert(half as int == blk.size as int / 2);
            vstd::arithmetic::div_mod::lemma_fundamental_div_mod(half as int, 8);
        }
    }
    let ts = crate::codec::decode_ts_range(tsr, 0, count);
    let vals = crate::codec::decode_vals_range(vr, 0, count);
    proof {
        assert(tsr@.subrange(0, 8 * count as int) =~= tsr@);
        assert(vr@.subrange(0, 8 * count as int) =~= vr@);
    }
    Ok((ts, vals))
}

} // verus!
