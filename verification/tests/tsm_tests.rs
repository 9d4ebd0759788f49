use tskv::block::{DataBlock, FileBlock};
use tskv::cursor::FileCursor;
use tskv::error::Error;
use tskv::reader::{read_block, read_footer, read_index};
use tskv::writer::{FooterBuilder, TsmBlockWriter, TsmIndexBuilder};
use tskv::MAX_BLOCK_VALUES;

fn build_file(fields: Vec<(u64, u8, Vec<i64>, Vec<u64>)>) -> (Vec<u8>, Vec<(u64, Vec<FileBlock>)>, u64) {
    let cursor = FileCursor::new();
    let mut bw = TsmBlockWriter::new(cursor);
    let mut groups: Vec<(u64, Vec<FileBlock>)> = Vec::new();
    for (fid, tag, ts, vals) in fields {
        let block = DataBlock::new(tag, ts, vals).expect("well-formed data block");
        let blks = bw.build(block).expect("block write");
        groups.push((fid, blks));
    }
    let mut ib = TsmIndexBuilder::new(bw.into_inner());
    let index_offset = ib.build(groups.clone()).expect("index write");
    let mut fb = FooterBuilder::new(ib.into_inner());
    fb.build(index_offset).expect("footer write");
    (fb.into_inner().into_bytes(), groups, index_offset)
}

#[test]
fn test_str_encode() {
    let mut data = vec![];
    let str = vec![vec![1_u8]];
    tskv::codec::string_encode(&str, &mut data);
}

#[test]
fn round_trip_two_block_field() {
    // 1500 ascending timestamps and values for field id 42 split into two
    // sub-blocks whose time ranges partition [0, 1499] contiguously.
    let ts: Vec<i64> = (0..1500).collect();
    let vals: Vec<u64> = (0..1500).map(|v| (v as f64).to_bits()).collect();
    let (file, groups, _) = build_file(vec![(42, 1, ts.clone(), vals.clone())]);

    let off = read_footer(&file).expect("footer");
    let parsed = read_index(&file, off).expect("index");
    assert_eq!(parsed.len(), 1);
    assert_eq!(parsed[0].0, 42);
    assert_eq!(parsed[0].1.len(), 2);
    assert_eq!(parsed[0].1, groups[0].1);
    assert_eq!(parsed[0].1[0].min_ts, 0);
    assert_eq!(parsed[0].1[0].max_ts, 999);
    assert_eq!(parsed[0].1[1].min_ts, 1000);
    assert_eq!(parsed[0].1[1].max_ts, 1499);
    assert_eq!(parsed[0].1[0].filed_type, 1);

    let mut got_ts: Vec<i64> = Vec::new();
    let mut got_vals: Vec<u64> = Vec::new();
    for blk in &parsed[0].1 {
        let (t, v) = read_block(&file, blk).expect("block read");
        got_ts.extend(t);
        got_vals.extend(v);
    }
    assert_eq!(got_ts, ts);
    assert_eq!(got_vals, vals);
    assert_eq!(f64::from_bits(got_vals[1499]), 1499.0);
}

#[test]
fn header_once_many_fields() {
    let mut fields = Vec::new();
    for fid in 0..5u64 {
        let ts: Vec<i64> = (0..3).collect();
        let vals: Vec<u64> = (10..13).collect();
        fields.push((fid, 0u8, ts, vals));
    }
    let (file, _, index_offset) = build_file(fields);
    // Exactly one 5-byte header at offset 0: magic then version.
    assert_eq!(file[0..5], [0x01, 0x34, 0x66, 0x13, 0x01]);
    // Every byte between header and index belongs to exactly one sub-block:
    // 5 fields, each one sub-block of 3 values (8 bytes of checksums plus
    // 16 bytes per value).
    assert_eq!(index_offset, 5 + 5 * (8 + 16 * 3));
}

#[test]
fn footer_records_index_start() {
    let ts: Vec<i64> = (100..110).collect();
    let vals: Vec<u64> = (0..10).collect();
    let (file, _, index_offset) = build_file(vec![(7, 2, ts, vals)]);
    let tail: [u8; 8] = file[file.len() - 8..].try_into().unwrap();
    assert_eq!(u64::from_be_bytes(tail), index_offset);
    // Seeking to the recorded offset yields index records that parse with no
    // trailing garbage before the footer.
    let off = read_footer(&file).expect("footer");
    assert_eq!(off, index_offset);
    let parsed = read_index(&file, off).expect("index");
    assert_eq!(parsed.len(), 1);
    assert_eq!(parsed[0].0, 7);
}

#[test]
fn block_count_bounds() {
    let exact: Vec<i64> = (0..MAX_BLOCK_VALUES as i64).collect();
    let vals: Vec<u64> = (0..MAX_BLOCK_VALUES as u64).collect();
    let (_, groups, _) = build_file(vec![(1, 0, exact, vals)]);
    assert_eq!(groups[0].1.len(), 1);

    let one_more: Vec<i64> = (0..MAX_BLOCK_VALUES as i64 + 1).collect();
    let vals: Vec<u64> = (0..MAX_BLOCK_VALUES as u64 + 1).collect();
    let (_, groups, _) = build_file(vec![(1, 0, one_more, vals)]);
    assert_eq!(groups[0].1.len(), 2);
    for blk in &groups[0].1 {
        assert!(blk.size <= 16 * MAX_BLOCK_VALUES as u64);
    }
    assert_eq!(groups[0].1[0].size, 16 * MAX_BLOCK_VALUES as u64);
    assert_eq!(groups[0].1[1].size, 16);
}

#[test]
fn corrupted_block_is_reported_alone() {
    let ts_a: Vec<i64> = (0..5).collect();
    let vals_a: Vec<u64> = (50..55).collect();
    let ts_b: Vec<i64> = (5..10).collect();
    let vals_b: Vec<u64> = (55..60).collect();
    let (file, groups, _) = build_file(vec![
        (1, 0, ts_a, vals_a),
        (2, 0, ts_b, vals_b),
    ]);
    let blk_a = groups[0].1[0];
    let blk_b = groups[1].1[0];
    // Flipping any single byte inside block A's timestamp or value buffer is
    // caught by its checksum; block B stays readable.
    let payload_start = blk_a.offset as usize + 4;
    let payload_end = blk_a.offset as usize + 8 + blk_a.size as usize;
    for at in payload_start..payload_end {
        if at >= blk_a.offset as usize + 4 + blk_a.size as usize / 2
            && at < blk_a.offset as usize + 8 + blk_a.size as usize / 2
        {
            continue; // the stored checksum of the value buffer, not payload
        }
        let mut bad = file.clone();
        bad[at] ^= 0x40;
        match read_block(&bad, &blk_a) {
            Err(Error::CorruptionErr) => {}
            other => panic!("expected corruption at byte {at}, got {other:?}"),
        }
        let (t, v) = read_block(&bad, &blk_b).expect("block B untouched");
        assert_eq!(t, vec![5, 6, 7, 8, 9]);
        assert_eq!(v, vec![55, 56, 57, 58, 59]);
    }
}

#[test]
fn committed_file_reads_identically_twice() {
    let ts: Vec<i64> = (0..100).collect();
    let vals: Vec<u64> = (0..100).collect();
    let (file, _, _) = build_file(vec![(3, 1, ts, vals)]);
    let off1 = read_footer(&file).unwrap();
    let off2 = read_footer(&file).unwrap();
    assert_eq!(off1, off2);
    let idx1 = read_index(&file, off1).unwrap();
    let idx2 = read_index(&file, off2).unwrap();
    assert_eq!(idx1, idx2);
    let b1 = read_block(&file, &idx1[0].1[0]).unwrap();
    let b2 = read_block(&file, &idx2[0].1[0]).unwrap();
    assert_eq!(b1, b2);
}

#[test]
fn stored_checksums_match_crc32fast() {
    let ts: Vec<i64> = vec![11, 12];
    let vals: Vec<u64> = vec![7, 8];
    let (file, groups, _) = build_file(vec![(9, 0, ts, vals)]);
    let blk = groups[0].1[0];
    let off = blk.offset as usize;
    let half = blk.size as usize / 2;
    let stored_ts_crc = u32::from_be_bytes(file[off..off + 4].try_into().unwrap());
    let ts_payload = &file[off + 4..off + 4 + half];
    assert_eq!(stored_ts_crc, crc32fast::hash(ts_payload));
    let stored_val_crc =
        u32::from_be_bytes(file[off + 4 + half..off + 8 + half].try_into().unwrap());
    let val_payload = &file[off + 8 + half..off + 8 + blk.size as usize];
    assert_eq!(stored_val_crc, crc32fast::hash(val_payload));
    // The payloads are the 8-byte big-endian records of the two columns.
    assert_eq!(ts_payload[..], [0, 0, 0, 0, 0, 0, 0, 11, 0, 0, 0, 0, 0, 0, 0, 12]);
    assert_eq!(val_payload[..], [0, 0, 0, 0, 0, 0, 0, 7, 0, 0, 0, 0, 0, 0, 0, 8]);
}

#[test]
fn index_record_layout_exact() {
    let ts: Vec<i64> = vec![-2, 3];
    let vals: Vec<u64> = vec![1, 2];
    let (file, groups, index_offset) = build_file(vec![(0x0102030405060708, 5, ts, vals)]);
    let at = index_offset as usize;
    assert_eq!(file[at..at + 8], [1, 2, 3, 4, 5, 6, 7, 8]);
    assert_eq!(file[at + 8], 5); // the block's real value-type tag
    assert_eq!(file[at + 9..at + 11], [0, 1]); // block count
    let blk = groups[0].1[0];
    let entry = &file[at + 11..at + 43];
    assert_eq!(entry[0..8], (-2i64).to_be_bytes()[..]);
    assert_eq!(entry[8..16], 3i64.to_be_bytes()[..]);
    assert_eq!(entry[16..24], blk.offset.to_be_bytes()[..]);
    assert_eq!(entry[24..32], blk.size.to_be_bytes()[..]);
}

#[test]
fn malformed_files_are_rejected() {
    // Too short for a footer.
    assert!(matches!(read_footer(&vec![1, 2, 3]), Err(Error::LayoutErr)));
    // Footer offset points outside the file.
    let mut file = vec![0u8; 16];
    file[8..16].copy_from_slice(&100u64.to_be_bytes());
    assert!(matches!(read_footer(&file), Err(Error::LayoutErr)));
    // An index record overruns the region before the footer.
    let mut file = vec![0u8; 30];
    let footer = (file.len() as u64 - 22).to_be_bytes();
    let n = file.len();
    file[n - 8..].copy_from_slice(&footer);
    // 14 bytes of region cannot hold the 11-byte record head plus one entry.
    file[n - 12] = 1; // block count 1 inside the record head
    assert!(matches!(read_index(&file, n as u64 - 22), Err(Error::LayoutErr)));
    // A descriptor pointing past the end of the file.
    let blk = FileBlock {
        min_ts: 0,
        max_ts: 0,
        offset: 1000,
        filed_type: 0,
        size: 16,
        reader_idx: 0,
    };
    assert!(matches!(read_block(&vec![0u8; 20], &blk), Err(Error::LayoutErr)));
}

#[test]
fn ill_formed_blocks_are_refused() {
    // Parallel arrays of different lengths.
    assert!(DataBlock::new(0, vec![1, 2], vec![1]).is_none());
    // Decreasing timestamps.
    assert!(DataBlock::new(0, vec![2, 1], vec![1, 2]).is_none());
    // Equal neighbours are allowed: timestamps need only be non-decreasing.
    let block = DataBlock::new(0, vec![1, 1, 2], vec![1, 2, 3]).unwrap();
    assert_eq!(block.len(), 3);
    assert_eq!(block.filed_type(), 0);
    // An encode range outside [0, len] is refused.
    assert!(matches!(
        block.encode(2, 1),
        Err(Error::WriteTsmErr { .. })
    ));
    assert!(matches!(
        block.encode(0, 4),
        Err(Error::WriteTsmErr { .. })
    ));
    let (ts_buf, val_buf) = block.encode(0, 3).unwrap();
    assert_eq!(ts_buf.len(), 24);
    assert_eq!(val_buf.len(), 24);
}

#[test]
fn time_range_of_sub_range() {
    let block = DataBlock::new(1, vec![1, 3, 5, 7], vec![0, 0, 0, 0]).unwrap();
    assert_eq!(block.time_range(1, 3), (3, 5));
    assert_eq!(block.time_range(0, 4), (1, 7));
}
