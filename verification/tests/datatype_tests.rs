use vecbase::ann::{AnnHnsw, AnnIndex};
use vecbase::datatype::{check_dims, parse_vector_literal, VectorTypmod};
use vecbase::error::VBError;
use vecbase::schema::{Document, Field, FieldEntry, Schema, Value};

#[test]
fn test_typmod_parse_from_str() {
    assert_eq!(VectorTypmod::parse_from_str("128"), Some(VectorTypmod::Dims(128)));
    assert_eq!(VectorTypmod::parse_from_str("+9"), Some(VectorTypmod::Dims(9)));
    assert_eq!(VectorTypmod::parse_from_str("0"), Some(VectorTypmod::Dims(0)));
    assert_eq!(VectorTypmod::parse_from_str("65535"), Some(VectorTypmod::Dims(65535)));
    assert_eq!(VectorTypmod::parse_from_str("65536"), None);
    assert_eq!(VectorTypmod::parse_from_str(""), None);
    assert_eq!(VectorTypmod::parse_from_str("-1"), None);
    assert_eq!(VectorTypmod::parse_from_str("12a"), None);
}

#[test]
fn test_typmod_parse_from_i32() {
    assert_eq!(VectorTypmod::parse_from_i32(-1), Some(VectorTypmod::Any));
    assert_eq!(VectorTypmod::parse_from_i32(0), Some(VectorTypmod::Dims(0)));
    assert_eq!(VectorTypmod::parse_from_i32(65535), Some(VectorTypmod::Dims(65535)));
    assert_eq!(VectorTypmod::parse_from_i32(65536), None);
    assert_eq!(VectorTypmod::parse_from_i32(-2), None);
}

#[test]
fn test_typmod_strings_and_dims() {
    assert_eq!(VectorTypmod::Any.into_option_string(), None);
    assert_eq!(VectorTypmod::Dims(42).into_option_string(), Some(String::from("42")));
    assert_eq!(VectorTypmod::Any.into_i32(), -1);
    assert_eq!(VectorTypmod::Dims(7).into_i32(), 7);
    assert_eq!(VectorTypmod::Any.dims(), None);
    assert_eq!(VectorTypmod::Dims(4).dims(), Some(4));
}

#[test]
fn test_parse_vector_literal() {
    let toks = parse_vector_literal(b"[0.5, 1, -2e3]").unwrap();
    assert_eq!(toks.len(), 3);
    assert_eq!(toks[0], b"0.5".to_vec());
    assert_eq!(toks[1], b"1".to_vec());
    assert_eq!(toks[2], b"-2e3".to_vec());

    let empty = parse_vector_literal(b"[ ]").unwrap();
    assert_eq!(empty.len(), 0);

    assert!(parse_vector_literal(b"1, 2]").is_err());
    assert!(parse_vector_literal(b"[1, 2").is_err());
    assert!(parse_vector_literal(b"[1,, 2]").is_err());
    assert!(parse_vector_literal(b"[1; 2]").is_err());
}

#[test]
fn test_check_dims() {
    assert!(check_dims(VectorTypmod::Any, 3));
    assert!(check_dims(VectorTypmod::Dims(3), 3));
    assert!(!check_dims(VectorTypmod::Dims(4), 3));
}

#[test]
fn test_error_kinds_are_distinct() {
    let a = VBError::EmptyIndex;
    let b = VBError::CorruptIndex;
    let c = VBError::DimensionMismatch;
    assert!(a != b && b != c && a != c);
}

#[test]
fn test_ann_capability() {
    let cfg = vecbase::IndexConfig { m: 4, ef_construction: 16, ef_search: 16, max_level: 8, dims: 2 };
    let mut a = AnnHnsw::new(cfg.m, cfg.ef_construction, cfg.ef_search, cfg.max_level, cfg.dims);
    a.insert(vec![0, 0], 10);
    a.insert(vec![3, 4], 11);
    a.insert(vec![1, 2, 3], 12); // wrong dimensionality: dropped
    let r = a.near(&vec![0, 0], 1);
    assert_eq!(r.len(), 1);
    assert_eq!(r[0].d, 0);
}

#[test]
fn test_schema_and_documents() {
    let mut schema = Schema::new();
    let body = schema.add_field(FieldEntry::Str);
    let title = schema.add_field(FieldEntry::I64);
    assert_eq!((body, title), (0, 1));

    let mut d = Document::new();
    d.add(Field::text("title", "aa"));
    assert_eq!(d.fields.len(), 1);
    match d.fields[0].value() {
        Value::Str(s) => assert_eq!(s, "aa"),
        _ => panic!("expected a string field"),
    }

    let mut indexer = vecbase::Indexer::new();
    let id0 = indexer.add_document(&d);
    let id1 = indexer.add_document(&d);
    assert_eq!((id0, id1), (0, 1));
}
