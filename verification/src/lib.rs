pub mod error;
pub mod metric;
pub mod varint;
pub mod hnsw;
pub mod codec;
pub mod ranked;
pub mod disk;
pub mod compaction;
pub mod strutil;
pub mod wal;
pub mod schema;
pub mod collection;
pub mod datatype;
pub mod ann;

use vstd::prelude::*;

verus! {

/// Index construction parameters: neighbor budget, build and search beam
/// widths, layer cap, and dimensionality.
pub struct IndexConfig {
    pub m: usize,
    pub ef_construction: usize,
    pub ef_search: usize,
    pub max_level: usize,
    pub dims: usize,
}

/// A term lookup: a field and the term's bytes.
pub struct Query {
    pub field_id: u32,
    pub term: Vec<u8>,
}

/// First posting recorded for a term of a field.
pub open spec fn reader_lookup(fields: Seq<disk::FieldPostings>, fid: int, term: Seq<u8>) -> Option<
    Seq<u8>,
> {
    if 0 <= fid < fields.len() {
        terms_lookup(disk::terms_view(fields[fid].terms@), term)
    } else {
        None
    }
}

pub open spec fn terms_lookup(terms: Seq<(Seq<u8>, Seq<u8>)>, key: Seq<u8>) -> Option<Seq<u8>>
    decreases terms.len(),
{
    if terms.len() == 0 {
        None
    } else if terms[0].0 == key {
        Some(terms[0].1)
    } else {
        terms_lookup(terms.drop_first(), key)
    }
}

/// A read view over an in-memory index: per field, the term postings in
/// flush order. What `disk::flush_disk` persists.
pub struct IndexReader {
    pub fields: Vec<disk::FieldPostings>,
}

impl IndexReader {
    /// The posting bytes recorded under the queried term, if any.
    #[verifier::loop_isolation(false)]
    pub fn search(&self, query: &Query) -> (r: Option<Vec<u8>>)
        ensures
            match r {
                Some(p) => reader_lookup(self.fields@, query.field_id as int, query.term@)
                    == Some(p@),
                None => reader_lookup(self.fields@, query.field_id as int, query.term@) is None,
            },
    {
        if query.field_id as usize >= self.fields.len() {
            return None;
        }
        let field = &self.fields[query.field_id as usize];
        let ghost tv = disk::terms_view(field.terms@);
        let n = field.terms.len();
        let mut i: usize = 0;
        proof {
            assert(tv.skip(0) =~= tv);
        }
        while i < n
            invariant
                i <= n,
                terms_lookup(tv, query.term@) == terms_lookup(tv.skip(i as int), query.term@),
            decreases n - i,
        {
            proof {
                assert(tv.skip(i as int)[0] == tv[i as int]);
                assert(tv.skip(i as int).drop_first() =~= tv.skip(i + 1));
            }
            if disk::bytes_eq(field.terms[i].key.as_slice(), query.term.as_slice()) {
                let mut p: Vec<u8> = Vec::new();
                let mut t: usize = 0;
                while t < field.terms[i].posting.len()
                    invariant
                        i < field.terms@.len(),
                        t <= field.terms@[i as int].posting@.len(),
                        p@ == field.terms@[i as int].posting@.subrange(0, t as int),
                    decreases field.terms@[i as int].posting@.len() - t,
                {
                    p.push(field.terms[i].posting[t]);
                    t += 1;
                }
                proof {
                    assert(p@ =~= tv[i as int].1);
                }
                return Some(p);
            }
            i += 1;
        }
        proof {
            assert(tv.skip(n as int) =~= Seq::<(Seq<u8>, Seq<u8>)>::empty());
        }
        None
    }
}

/// An in-memory indexer: the postings built so far and the next document id,
/// issued strictly increasing.
pub struct Indexer {
    pub reader: IndexReader,
    pub doc_id: u64,
}

impl Indexer {
    pub fn new() -> (x: Indexer)
        ensures
            x.reader.fields@.len() == 0,
            x.doc_id == 0,
    {
        Indexer { reader: IndexReader { fields: Vec::new() }, doc_id: 0 }
    }

    /// Issues the next document id for a document.
    pub fn add_document(&mut self, doc: &schema::Document) -> (id: u64)
        requires
            old(self).doc_id < 0xffffffffffffffff,
        ensures
            id == old(self).doc_id,
            final(self).doc_id == old(self).doc_id + 1,
            final(self).reader == old(self).reader,
    {
        let _ = doc;
        let id = self.doc_id;
        self.doc_id = id + 1;
        id
    }
}

/// Pairs an indexer's read view with the segment writer that persists it.
pub struct IndexDiskWriter {
    pub writer: disk::DiskStoreWriter,
}

} // verus!
