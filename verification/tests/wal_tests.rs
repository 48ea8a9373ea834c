use vecbase::wal::{recover, segment_file_name, ChunkType, IOType, Options, RwWal, Segment, BLOCK_SIZE};

#[test]
fn test_segment_single_chunk() {
    let mut s = Segment::open(IOType::MMAP, 0);
    let n = s.write(&[7, 8, 9]);
    assert_eq!(n, 6);
    // Full chunk: tag 0, length 3 little-endian, then the payload
    assert_eq!(s.buf, vec![0, 3, 0, 7, 8, 9]);
}

#[test]
fn test_segment_spanning_record() {
    let mut s = Segment::open(IOType::MMAP, 1);
    let rec: Vec<u8> = vec![0xab; 40000];
    let n = s.write(rec.as_slice());
    // First chunk fills the block: 3-byte header + 32765 payload bytes; the
    // rest lands in a Last chunk on the next block.
    assert_eq!(s.buf.len(), n);
    assert_eq!(s.buf[0], 1, "First tag");
    let l1 = (s.buf[1] as usize) | ((s.buf[2] as usize) << 8);
    assert_eq!(l1, BLOCK_SIZE - 3);
    assert_eq!(s.buf[BLOCK_SIZE], 3, "Last tag");
    let l2 = (s.buf[BLOCK_SIZE + 1] as usize) | ((s.buf[BLOCK_SIZE + 2] as usize) << 8);
    assert_eq!(l2, 40000 - (BLOCK_SIZE - 3));
    assert_eq!(s.buf.len(), BLOCK_SIZE + 3 + l2);
}

#[test]
fn test_segment_pads_block_tail() {
    let mut s = Segment::open(IOType::MMAP, 2);
    // leave exactly 2 bytes of the first block: too small for a header
    let filler: Vec<u8> = vec![1; BLOCK_SIZE - 3 - 2];
    s.write(filler.as_slice());
    assert_eq!(s.buf.len(), BLOCK_SIZE - 2);
    s.write(&[5]);
    // two zero pad bytes, then the record at the block boundary
    assert_eq!(s.buf[BLOCK_SIZE - 2], 0);
    assert_eq!(s.buf[BLOCK_SIZE - 1], 0);
    assert_eq!(&s.buf[BLOCK_SIZE..], &[0, 1, 0, 5]);
}

#[test]
fn test_chunk_tags() {
    assert_eq!(vecbase::wal::chunk_tag(ChunkType::Full), 0);
    assert_eq!(vecbase::wal::chunk_tag(ChunkType::First), 1);
    assert_eq!(vecbase::wal::chunk_tag(ChunkType::Middle), 2);
    assert_eq!(vecbase::wal::chunk_tag(ChunkType::Last), 3);
}

#[test]
fn test_rwwal_new() {
    let options = Options {
        dir_path: String::from("data"),
        segment_size: 1 << 25,
        segment_file_ext: String::from(".wal"),
        sync: true,
        bytes_per_sync: 0,
        sync_interval_ms: 0,
        is_segmented: false,
        io_type: IOType::FILEIO,
    };
    let w = RwWal::new(options);
    assert_eq!(w.active_segment.id, 0);
    assert!(w.active_segment.buf.is_empty());
}

#[test]
fn test_segment_file_name() {
    let name = segment_file_name("data", ".wal", 7);
    assert_eq!(name, "data/000000007.wal");
    let name2 = segment_file_name("d", ".seg", 123456789);
    assert_eq!(name2, "d/123456789.seg");
}

#[test]
fn test_segment_file_name_wide_ids() {
    // ids of a billion and more keep every digit, so distinct ids always
    // give distinct file names
    let name = segment_file_name("d", ".wal", 1_000_000_000);
    assert_eq!(name, "d/1000000000.wal");
    let name2 = segment_file_name("d", ".wal", u32::MAX);
    assert_eq!(name2, "d/4294967295.wal");
    let name3 = segment_file_name("d", ".wal", 999_999_999);
    assert_eq!(name3, "d/999999999.wal");
}

#[test]
fn test_recover_round_trip() {
    let mut s = Segment::open(IOType::MMAP, 0);
    let r1: Vec<u8> = vec![1, 2, 3];
    let r2: Vec<u8> = vec![9; 40000]; // spans two blocks
    let r3: Vec<u8> = vec![7];
    s.write(r1.as_slice());
    s.write(r2.as_slice());
    s.write(r3.as_slice());
    let records = recover(s.buf.as_slice());
    assert_eq!(records, vec![r1, r2, r3]);
}

#[test]
fn test_recover_discards_torn_tail() {
    let mut s = Segment::open(IOType::MMAP, 0);
    let r1: Vec<u8> = vec![1, 2, 3];
    let r2: Vec<u8> = vec![9; 40000];
    s.write(r1.as_slice());
    let whole = s.write(r2.as_slice());
    // lose the tail of the second record: its First chunk survives but its
    // Last chunk is gone, so only the first record comes back
    let mut bytes = s.buf.clone();
    bytes.truncate(bytes.len() - (whole - 10));
    let records = recover(bytes.as_slice());
    assert_eq!(records, vec![r1.clone()]);
    // losing only part of the final chunk discards the whole record too
    let mut bytes2 = s.buf.clone();
    bytes2.truncate(bytes2.len() - 1);
    let records2 = recover(bytes2.as_slice());
    assert_eq!(records2, vec![r1]);
}
