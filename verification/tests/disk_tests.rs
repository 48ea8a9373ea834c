use varintrs::{Binary, WriteBytesVarExt};
use vecbase::disk::{decode_doc_table, decode_footer, encode_doc_table, encode_footer, shared_prefix_len, DataBlock, DiskStoreReader, DiskStoreWriter, Footer, IndexBlock, SEGMENT_MAGIC, SEGMENT_VERSION};
use vecbase::varint::read_vu64;
use vecbase::{IndexReader, Query};

#[test]
fn test_bytes() {
    let mut buffer: Vec<u8> = Vec::with_capacity(10);
    buffer.write_vi64::<Binary>(1024).unwrap();
    buffer.write_vi64::<Binary>(1024).unwrap();
    buffer.write_vi64::<Binary>(1024).unwrap();
    buffer.write_vi64::<Binary>(1024).unwrap();
    buffer.write_vi64::<Binary>(1024).unwrap();
    buffer.write_vi64::<Binary>(1024).unwrap();
    buffer.write_vi64::<Binary>(1024).unwrap();
    buffer.write_vi64::<Binary>(1024).unwrap();
    buffer.write_vi64::<Binary>(1024).unwrap();
    buffer.write_vi64::<Binary>(1024).unwrap();
    buffer.write_vi64::<Binary>(1024).unwrap();
    buffer.write_vi64::<Binary>(1024).unwrap();
    buffer.write_vi64::<Binary>(1024).unwrap();
    println!("buf1:{:?}", buffer);
    buffer.clear();

    buffer.write_vi64::<Binary>(2048).unwrap();
    buffer.write_vi64::<Binary>(2048).unwrap();

    println!("buf2:{:?}", buffer);
}

#[test]
fn test_disk_reader() {
    let mut buffer: Vec<u8> = Vec::with_capacity(10);
    buffer.write_vi64::<Binary>(1024).unwrap();
    buffer.write_vi64::<Binary>(1024).unwrap();
    buffer.write_vi64::<Binary>(1024).unwrap();
    buffer.write_vi64::<Binary>(1024).unwrap();
    buffer.write_vi64::<Binary>(1024).unwrap();
    buffer.write_vi64::<Binary>(1024).unwrap();
    buffer.write_vi64::<Binary>(1024).unwrap();
    buffer.write_vi64::<Binary>(1024).unwrap();
    buffer.write_vi64::<Binary>(1024).unwrap();
    buffer.write_vi64::<Binary>(1024).unwrap();
    buffer.write_vi64::<Binary>(1024).unwrap();
    buffer.write_vi64::<Binary>(1024).unwrap();
    buffer.write_vi64::<Binary>(1024).unwrap();
    println!("buf1:{:?}", buffer);
    buffer.clear();

    buffer.write_vi64::<Binary>(2048).unwrap();
    buffer.write_vi64::<Binary>(2048).unwrap();

    println!("buf2:{:?}", buffer);
}

#[test]
fn test_varint_round_trip() {
    // posting blocks carry a varint length prefix; reading it back recovers
    // the written length exactly
    for len in [0usize, 1, 127, 128, 300, 70000] {
        let mut w = DiskStoreWriter::with_offset(0);
        let payload: Vec<u8> = vec![0xee; len];
        w.write_posting(payload.as_slice()).unwrap();
        let (got, n) = read_vu64(w.buf.as_slice(), 0).unwrap();
        assert_eq!(got, len as u64);
        assert_eq!(w.buf.len(), n + len);
        assert_eq!(&w.buf[n..], payload.as_slice());
    }
}

#[test]
fn test_varint_matches_varintrs() {
    // The length prefix the library writes is the varint encoding the
    // outside crate produces.
    let mut w = DiskStoreWriter::with_offset(0);
    w.write_posting(vec![0u8; 300].as_slice()).unwrap();
    let mut theirs: Vec<u8> = Vec::new();
    theirs.write_vu64::<Binary>(300).unwrap();
    assert_eq!(&w.buf[..theirs.len()], theirs.as_slice());
    assert_eq!(theirs, vec![0xac, 0x02]);
}

#[test]
fn test_shared_prefix_len() {
    assert_eq!(shared_prefix_len(b"hello", b"help"), 3);
    assert_eq!(shared_prefix_len(b"", b"x"), 0);
    assert_eq!(shared_prefix_len(b"abc", b"abc"), 3);
    assert_eq!(shared_prefix_len(b"abc", b"xbc"), 0);
}

#[test]
fn test_data_block() {
    let mut d = DataBlock::new();
    d.write(b"abc").unwrap();
    d.write(b"de").unwrap();
    assert_eq!(d.buf, b"abcde".to_vec());
    d.reset();
    assert!(d.buf.is_empty());
}

#[test]
fn test_index_block_round_trip() {
    let mut ib = IndexBlock::new();
    ib.add(b"alpha", 0).unwrap();
    ib.add(b"alps", 17).unwrap();
    ib.add(b"beta", 42).unwrap();
    ib.finish().unwrap();
    let bytes = ib.buf.clone();
    let reader = DiskStoreReader::open(bytes.clone(), vec![(0usize, bytes.len())]).unwrap();
    let fr = reader.field_reader(0).unwrap();
    assert_eq!(fr.get(b"alpha"), Some(0));
    assert_eq!(fr.get(b"alps"), Some(17));
    assert_eq!(fr.get(b"beta"), Some(42));
    assert_eq!(fr.get(b"gamma"), None);
}

#[test]
fn test_field_reader_rejects_damage() {
    let mut ib = IndexBlock::new();
    ib.add(b"alpha", 7).unwrap();
    ib.finish().unwrap();
    let mut bytes = ib.buf.clone();
    bytes.pop();
    let reader = DiskStoreReader::open(bytes.clone(), vec![(0usize, bytes.len())]).unwrap();
    assert!(reader.field_reader(0).is_err());
    let mut bytes2 = ib.buf.clone();
    bytes2[0] = 0xff;
    let reader2 = DiskStoreReader::open(bytes2.clone(), vec![(0usize, bytes2.len())]).unwrap();
    assert!(reader2.field_reader(0).is_err());
}

#[test]
fn test_flush_disk_and_lookup() {
    let reader = IndexReader {
        fields: vec![vecbase::disk::FieldPostings {
            terms: vec![
                vecbase::disk::TermPosting { key: b"ant".to_vec(), posting: vec![1, 2, 3] },
                vecbase::disk::TermPosting { key: b"antelope".to_vec(), posting: vec![9] },
            ],
        }],
    };
    let w = vecbase::disk::flush_disk(&reader, 0).unwrap();
    // posting blocks: [3] 1 2 3 [1] 9, so the dictionary starts at byte 6
    assert_eq!(w.field_offset, vec![6usize]);
    assert_eq!(&w.buf[0..6], &[3, 1, 2, 3, 1, 9]);
    let dict_len = w.buf.len() - 6;
    let seg = DiskStoreReader::open(w.buf.clone(), vec![(6usize, dict_len)]).unwrap();
    let fr = seg.field_reader(0).unwrap();
    assert_eq!(fr.get(b"ant"), Some(0));
    assert_eq!(fr.get(b"antelope"), Some(4));
    let term = vecbase::disk::Term { field_id: 0, bytes: b"antelope".to_vec() };
    assert_eq!(seg.search(&term).unwrap(), 4);
    // the in-memory reader agrees
    let q = Query { field_id: 0, term: b"ant".to_vec() };
    assert_eq!(reader.search(&q), Some(vec![1, 2, 3]));
}

#[test]
fn test_footer_round_trip() {
    let f = Footer {
        magic: SEGMENT_MAGIC,
        version: SEGMENT_VERSION,
        level: 2,
        file_size: 12345,
        fields_off: 0,
        fields_len: 100,
        doc_table_off: 100,
        doc_table_len: 40,
        index_off: 140,
        index_len: 999,
    };
    let bytes = encode_footer(&f);
    assert_eq!(bytes.len(), 80);
    let g = decode_footer(bytes.as_slice()).unwrap();
    assert_eq!(g.level, 2);
    assert_eq!(g.file_size, 12345);
    assert_eq!(g.index_len, 999);
    let mut bad = bytes.clone();
    bad[0] = 0; // breaks the magic tag
    assert!(decode_footer(bad.as_slice()).is_err());
    assert!(decode_footer(&bytes[1..]).is_err());
}

#[test]
fn test_doc_table_round_trip() {
    let entries: Vec<(u64, u64)> = vec![(0, 0), (1, 51), (2, 102)];
    let bytes = encode_doc_table(&entries);
    let got = decode_doc_table(bytes.as_slice()).unwrap();
    assert_eq!(got, entries);
    assert!(decode_doc_table(&bytes[..bytes.len() - 8]).is_err());
}

#[test]
fn test_search_absent_term() {
    let mut ib = IndexBlock::new();
    ib.add(b"alpha", 7).unwrap();
    ib.finish().unwrap();
    let bytes = ib.buf.clone();
    let seg = DiskStoreReader::open(bytes.clone(), vec![(0usize, bytes.len())]).unwrap();
    let hit = vecbase::disk::Term { field_id: 0, bytes: b"alpha".to_vec() };
    assert_eq!(seg.search(&hit).unwrap(), 7);
    let miss = vecbase::disk::Term { field_id: 0, bytes: b"beta".to_vec() };
    assert!(seg.search(&miss).is_err());
    let bad_field = vecbase::disk::Term { field_id: 9, bytes: b"alpha".to_vec() };
    assert!(seg.search(&bad_field).is_err());
}

#[test]
fn test_writer_positions() {
    let mut w = DiskStoreWriter::with_offset(100);
    let off1 = w.write_posting(&[5, 6, 7]).unwrap();
    assert_eq!(off1, 100);
    let off2 = w.write_posting(&[8]).unwrap();
    assert_eq!(off2, 104);
    w.add_term(b"a", off1).unwrap();
    w.add_term(b"b", off2).unwrap();
    w.finish_field().unwrap();
    assert_eq!(w.field_offset, vec![106usize]);
    w.flush().unwrap();
}
