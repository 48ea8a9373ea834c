use crate::compaction::count_at_level;
use crate::compaction::Compaction;
use crate::disk::rows_distinct;
use crate::disk::rows_view;
use crate::disk::stores_rows;
use crate::disk::Row;
use crate::disk::RowV;
use crate::disk::VectorStore;
use crate::error::VBError;
use crate::hnsw::HNSW;
use crate::metric::coords_ok;
use crate::metric::dist2;
use crate::metric::MAX_DIMS;
use crate::ranked::distinct_ids;
use crate::ranked::top_k;
use crate::ranked::RankedResult;
use crate::schema::Schema;
use crate::strutil::dec_of;
use crate::strutil::u32_pad_min9;
use crate::strutil::u64_to_dec;
use crate::wal::IOType;
use crate::wal::Options;
use crate::wal::RwWal;
use crate::wal::wal_encode;
use crate::wal::BLOCK_SIZE;
use vstd::prelude::*;
use vstd::string::StringExecFns;

verus! {

/// Recognized configuration: the collection's name, the memtable byte
/// threshold that triggers rotation, and the index parameters.
pub struct Config {
    pub collect_name: String,
    pub memtable_threshold: u64,
    pub dims: usize,
    pub m: usize,
    pub ef_construction: usize,
    pub ef_search: usize,
    pub max_level: usize,
}

impl Config {
    pub open spec fn wf(self) -> bool {
        &&& 1 <= self.m <= 0x10000
        &&& 1 <= self.ef_construction <= 0x10000
        &&& 1 <= self.ef_search <= 0x10000
        &&& self.max_level <= 64
        &&& 1 <= self.dims <= MAX_DIMS
        &&& 1 <= self.memtable_threshold
    }
}

/// One write: a vector and its opaque payload.
pub struct Vector {
    pub data: Vec<i64>,
    pub payload: Vec<u8>,
}

/// One memtable generation: its write-ahead log, its in-memory vector index,
/// and per-node document ids and payloads. Exactly one engine is active per
/// collection; at most one more is immutable, awaiting flush.
pub struct Engine {
    pub wal: RwWal,
    pub index: HNSW,
    pub ids: Vec<u64>,
    pub docs: Vec<Vec<u8>>,
    pub byte_size: u64,
}

impl Engine {
    /// The engine's rows: one per index node, in insertion order.
    pub open spec fn rview(self) -> Seq<RowV> {
        Seq::new(
            self.index.n() as nat,
            |i: int|
                RowV { id: self.ids@[i], vec: self.index.node_vec(i), payload: self.docs@[i]@ },
        )
    }

    pub open spec fn wf(self) -> bool {
        &&& self.index.wf()
        &&& self.ids@.len() == self.index.n()
        &&& self.docs@.len() == self.index.n()
        &&& self.wal.active_segment.wf()
    }

    /// A fresh, empty engine.
    pub fn new(config: &Config) -> (e: Engine)
        requires
            config.wf(),
        ensures
            e.wf(),
            e.rview() == Seq::<RowV>::empty(),
            e.byte_size == 0,
            e.index.n() == 0,
            e.wal.active_segment.records@ == Seq::<Seq<u8>>::empty(),
            e.wal.active_segment.buf@ == Seq::<u8>::empty(),
            e.index.dims == config.dims,
            e.index.m == config.m,
            e.index.ef_construction == config.ef_construction,
            e.index.ef_search == config.ef_search,
            e.index.max_level == config.max_level,
    {
        let options = Options {
            dir_path: String::new(),
            segment_size: 0x2000000,
            segment_file_ext: String::from_str(".wal"),
            sync: true,
            bytes_per_sync: 0,
            sync_interval_ms: 0,
            is_segmented: false,
            io_type: IOType::MMAP,
        };
        let e = Engine {
            wal: RwWal::new(options),
            index: HNSW::new(
                config.m,
                config.ef_construction,
                config.ef_search,
                config.max_level,
                config.dims,
            ),
            ids: Vec::new(),
            docs: Vec::new(),
            byte_size: 0,
        };
        proof {
            assert(e.rview() =~= Seq::<RowV>::empty());
        }
        e
    }

    /// Whether a write of `size` more bytes still fits under the threshold.
    pub fn check_room_for_write(&self, size: u64, threshold: u64) -> (ok: bool)
        ensures
            ok == (self.byte_size + size <= threshold),
    {
        if size > threshold {
            false
        } else {
            self.byte_size <= threshold - size
        }
    }
}

/// The per-collection orchestration state: one active engine, at most one
/// immutable engine pending flush, the published disk segments, the id
/// generator, the compaction planner, and the segment name counter.
pub struct CollectionImpl {
    pub meta: Schema,
    pub config: Config,
    pub next_id: u64,
    pub mem: Engine,
    pub imm: Option<Engine>,
    pub disk_reader: Vec<VectorStore>,
    pub comp: Compaction,
    pub next_table_id: u32,
}

impl CollectionImpl {
    pub open spec fn imm_rows(self) -> Seq<RowV> {
        match self.imm {
            Some(e) => e.rview(),
            None => Seq::empty(),
        }
    }

    /// Every row the collection answers from: the active engine's, then the
    /// disk segments', then the immutable engine's.
    pub open spec fn pool(self) -> Seq<RowV> {
        self.mem.rview() + stores_rows(self.disk_reader@) + self.imm_rows()
    }

    pub open spec fn engine_matches(self, e: Engine) -> bool {
        &&& e.wf()
        &&& e.index.dims == self.config.dims
        &&& e.index.m == self.config.m
        &&& e.index.ef_construction == self.config.ef_construction
        &&& e.index.ef_search == self.config.ef_search
        &&& e.index.max_level == self.config.max_level
    }

    pub open spec fn wf(self) -> bool {
        &&& self.config.wf()
        &&& self.engine_matches(self.mem)
        &&& match self.imm {
            Some(e) => self.engine_matches(e),
            None => true,
        }
        &&& forall|i: int|
            0 <= i < self.disk_reader@.len() ==> (#[trigger] self.disk_reader@[i]).wf()
                && self.disk_reader@[i].index.dims == self.config.dims
        &&& rows_distinct(self.pool())
        &&& forall|i: int| 0 <= i < self.pool().len() ==> (#[trigger] self.pool()[i]).id
            < self.next_id
        &&& self.comp.wf()
    }

    /// A fresh collection over a schema and configuration; rejects a
    /// configuration outside the recognized bounds.
    pub fn new(schema: Schema, config: Config) -> (r: Result<CollectionImpl, VBError>)
        ensures
            match r {
                Ok(c) => config.wf() && c.wf() && c.pool() == Seq::<RowV>::empty() && c.next_id
                    == 0 && c.imm is None && c.disk_reader@.len() == 0,
                Err(e) => !config.wf() && e is Unexpected,
            },
    {
        if !(1 <= config.m && config.m <= 0x10000 && 1 <= config.ef_construction
            && config.ef_construction <= 0x10000 && 1 <= config.ef_search && config.ef_search
            <= 0x10000 && config.max_level <= 64 && 1 <= config.dims && config.dims <= MAX_DIMS
            && 1 <= config.memtable_threshold) {
            return Err(VBError::Unexpected(String::from_str("configuration out of range")));
        }
        let mem = Engine::new(&config);
        let c = CollectionImpl {
            meta: schema,
            config,
            next_id: 0,
            mem,
            imm: None,
            disk_reader: Vec::new(),
            comp: Compaction::new(),
            next_table_id: 0,
        };
        proof {
            assert(stores_rows(c.disk_reader@) =~= Seq::<RowV>::empty());
            assert(c.pool() =~= Seq::<RowV>::empty());
        }
        Ok(c)
    }

    /// Reopens a collection from its active WAL's recovered records (the
    /// reopen scan's output): each record is decoded and replayed into a
    /// fresh active engine, re-logging it, so the rebuilt state answers for
    /// every durably acknowledged write. Ids must come back strictly
    /// increasing, as the generator issued them; anything else — a record no
    /// write produces, a wrong dimensionality, ids out of order — is
    /// reported as corruption, never repaired.
    #[verifier::loop_isolation(false)]
    pub fn open(schema: Schema, config: Config, records: &Vec<Vec<u8>>) -> (r: Result<
        CollectionImpl,
        VBError,
    >)
        ensures
            match r {
                Ok(c) => {
                    &&& config.wf()
                    &&& c.wf()
                    &&& c.imm is None
                    &&& c.disk_reader@.len() == 0
                    &&& c.pool().len() == records@.len()
                    &&& forall|i: int|
                        0 <= i < records@.len() ==> rec_bytes(
                            (#[trigger] c.pool()[i]).id,
                            c.pool()[i].vec,
                            c.pool()[i].payload,
                        ) == records@[i]@
                },
                Err(_) => true,
            },
    {
        let mut c = match CollectionImpl::new(schema, config) {
            Ok(c) => c,
            Err(e) => {
                return Err(e);
            },
        };
        let nr = records.len();
        let mut i: usize = 0;
        while i < nr
            invariant
                i <= nr,
                nr == records@.len(),
                c.wf(),
                c.config.wf(),
                c.imm is None,
                c.disk_reader@.len() == 0,
                c.pool().len() == i,
                c.pool() == c.mem.rview(),
                forall|t: int|
                    0 <= t < i ==> rec_bytes(
                        (#[trigger] c.pool()[t]).id,
                        c.pool()[t].vec,
                        c.pool()[t].payload,
                    ) == records@[t]@,
            decreases nr - i,
        {
            let (id, data, payload) = match decode_record(records[i].as_slice()) {
                Some(t) => t,
                None => {
                    return Err(VBError::CorruptIndex);
                },
            };
            if data.len() != c.config.dims {
                return Err(VBError::CorruptIndex);
            }
            if id < c.next_id || id == 0xffffffffffffffff {
                return Err(VBError::CorruptIndex);
            }
            if payload.len() >= 0x8000000 || c.mem.index.nodes.len() >= 0xfffffffe
                || c.mem.wal.active_segment.buf.len() >= 0x7fffffff {
                return Err(VBError::Unexpected(String::from_str("replay too large")));
            }
            let ghost pre = c;
            let ghost rowv = RowV { id, vec: data@, payload: payload@ };
            c.mem.add(id, data, payload);
            c.next_id = id + 1;
            proof {
                assert(c.mem.rview() == pre.mem.rview().push(rowv));
                lemma_pool_push_mem(pre, c, rowv);
                assert(c.pool() =~= c.mem.rview());
                assert forall|t: int| 0 <= t < i + 1 implies rec_bytes(
                    (#[trigger] c.pool()[t]).id,
                    c.pool()[t].vec,
                    c.pool()[t].payload,
                ) == records@[t]@ by {
                    if t < i {
                        assert(c.pool()[t] == pre.pool()[t]);
                    } else {
                        assert(c.pool()[t] == rowv);
                    }
                }
            }
            i += 1;
        }
        Ok(c)
    }
}

/// Byte cost `add` accounts a write at: two words (id and length), one word
/// per component, and the payload.
pub open spec fn rec_size_of(v: Vector) -> int {
    16 + 8 * v.data@.len() as int + v.payload@.len() as int
}

/// The WAL image of one write: the id and the vector as little-endian words
/// (components offset to be non-negative), then the payload bytes.
pub open spec fn rec_bytes(id: u64, vecv: Seq<i64>, payload: Seq<u8>) -> Seq<u8> {
    crate::codec::bytes_of_words(seq![id, vecv.len() as u64] + crate::codec::ser_coords(vecv))
        + payload
}

impl Engine {
    /// Appends the write to the WAL, then inserts it into the index and the
    /// payload store: a crash after the append loses nothing; a crash before
    /// it exposes nothing.
    #[verifier::loop_isolation(false)]
    pub fn add(&mut self, id: u64, data: Vec<i64>, payload: Vec<u8>)
        requires
            old(self).wf(),
            coords_ok(data@),
            data@.len() == old(self).index.dims,
            old(self).index.n() < 0xffffffff,
            old(self).wal.active_segment.buf@.len() + 4 * (16 + 8 * data@.len() + payload@.len())
                + 3 * BLOCK_SIZE < usize::MAX,
            8 * (2 + data@.len()) + payload@.len() < usize::MAX,
        ensures
            final(self).wf(),
            final(self).rview() == old(self).rview().push(
                RowV { id, vec: data@, payload: payload@ },
            ),
            final(self).index.dims == old(self).index.dims,
            final(self).index.m == old(self).index.m,
            final(self).index.ef_construction == old(self).index.ef_construction,
            final(self).index.ef_search == old(self).index.ef_search,
            final(self).index.max_level == old(self).index.max_level,
            final(self).byte_size == final(self).wal.active_segment.buf@.len(),
            final(self).wal.active_segment.records@ == old(self).wal.active_segment.records@.push(
                rec_bytes(id, data@, payload@),
            ),
    {
        let ghost rb = rec_bytes(id, data@, payload@);
        let mut ws: Vec<u64> = Vec::new();
        ws.push(id);
        ws.push(data.len() as u64);
        let ghost hdr = ws@;
        proof {
            assert(hdr =~= seq![id, data@.len() as u64]);
            assert(data@.take(0) =~= Seq::<i64>::empty());
        }
        let mut c: usize = 0;
        while c < data.len()
            invariant
                c <= data@.len(),
                ws@ == hdr + crate::codec::ser_coords(data@.take(c as int)),
                ws@.len() == 2 + c,
            decreases data@.len() - c,
        {
            proof {
                assert(crate::metric::coord_ok(data@[c as int]));
            }
            ws.push((data[c] + crate::metric::COORD_BOUND) as u64);
            proof {
                crate::codec::lemma_blocks_take_snoc(
                    data@,
                    |x: i64| seq![(x + crate::metric::COORD_BOUND) as u64],
                    c as int,
                );
                assert(ws@ =~= hdr + crate::codec::ser_coords(data@.take(c + 1)));
            }
            c += 1;
        }
        proof {
            assert(data@.take(data@.len() as int) =~= data@);
        }
        let mut rec: Vec<u8> = Vec::new();
        let wn = ws.len();
        let mut t: usize = 0;
        while t < wn
            invariant
                t <= wn,
                rec@ == crate::codec::bytes_of_words(ws@.take(t as int)),
                rec@.len() == 8 * t,
            decreases wn - t,
        {
            let mut b = vstd::bytes::u64_to_le_bytes(ws[t]);
            rec.append(&mut b);
            proof {
                assert(ws@.take(t + 1).drop_last() =~= ws@.take(t as int));
                assert(ws@.take(t + 1).last() == ws@[t as int]);
            }
            t += 1;
        }
        proof {
            assert(ws@.take(wn as int) =~= ws@);
        }
        let mut p: usize = 0;
        let ghost words_bytes = rec@;
        while p < payload.len()
            invariant
                p <= payload@.len(),
                rec@ == words_bytes + payload@.take(p as int),
            decreases payload@.len() - p,
        {
            rec.push(payload[p]);
            proof {
                assert(rec@ =~= words_bytes + payload@.take(p + 1));
            }
            p += 1;
        }
        proof {
            assert(payload@.take(payload@.len() as int) =~= payload@);
            assert(rec@ =~= rb);
        }
        proof {
            assert(rec@.len() == 16 + 8 * data@.len() + payload@.len());
        }
        let _ = self.wal.active_segment.write(rec.as_slice());
        self.byte_size = self.wal.active_segment.buf.len() as u64;
        let ghost pre_rv = old(self).rview();
        let ins = self.index.insert(data);
        proof {
            assert(ins is Ok);
        }
        self.ids.push(id);
        self.docs.push(payload);
        proof {
            assert forall|i: int| 0 <= i < self.rview().len() implies self.rview()[i] == pre_rv.push(
                RowV { id, vec: data@, payload: self.docs@[self.docs@.len() - 1]@ },
            )[i] by {
                if i < pre_rv.len() {
                    assert(self.index.node_vec(i) == old(self).index.node_vec(i));
                    assert(self.ids@[i] == old(self).ids@[i]);
                    assert(self.docs@[i] == old(self).docs@[i]);
                }
            }
            assert(self.rview() =~= pre_rv.push(RowV { id, vec: data@, payload: payload@ }));
        }
    }
}

/// The fields a WAL record pins down, at their byte positions.
proof fn lemma_rec_words(rec: Seq<u8>, id: u64, d: Seq<i64>, p: Seq<u8>)
    requires
        rec == rec_bytes(id, d, p),
        d.len() <= 0xffffffff,
        coords_ok(d),
    ensures
        rec.len() == 16 + 8 * d.len() + p.len(),
        vstd::bytes::spec_u64_from_le_bytes(rec.subrange(0, 8)) == id,
        vstd::bytes::spec_u64_from_le_bytes(rec.subrange(8, 16)) == d.len() as u64,
        forall|i: int|
            0 <= i < d.len() ==> vstd::bytes::spec_u64_from_le_bytes(
                #[trigger] rec.subrange(16 + 8 * i, 24 + 8 * i),
            ) == (d[i] + crate::metric::COORD_BOUND) as u64,
        rec.skip(16 + 8 * d.len() as int) == p,
{
    let ws = seq![id, d.len() as u64] + crate::codec::ser_coords(d);
    crate::codec::lemma_coords_blocks(d);
    assert(ws.len() == 2 + d.len());
    let bw = crate::codec::bytes_of_words(ws);
    crate::codec::lemma_words_of_bytes_len(ws);
    assert(rec.subrange(0, rec.len() as int) =~= rec);
    crate::disk::lemma_bytes_split(rec, 0, bw, p);
    crate::codec::lemma_words_of_bytes_inverse(ws, bw);
    assert(rec.subrange(0, bw.len() as int) == bw);
    assert forall|i: int| 0 <= i < ws.len() implies vstd::bytes::spec_u64_from_le_bytes(
        rec.subrange(8 * i, 8 * i + 8),
    ) == ws[i] by {
        assert(rec.subrange(8 * i, 8 * i + 8) =~= bw.subrange(8 * i, 8 * i + 8));
        assert(crate::codec::words_of(bw)[i] == ws[i]);
    }
    assert(vstd::bytes::spec_u64_from_le_bytes(rec.subrange(8 * 0int, 8 * 0int + 8)) == ws[0]);
    assert(rec.subrange(0, 8) =~= rec.subrange(8 * 0int, 8 * 0int + 8));
    assert(vstd::bytes::spec_u64_from_le_bytes(rec.subrange(8 * 1int, 8 * 1int + 8)) == ws[1]);
    assert(rec.subrange(8, 16) =~= rec.subrange(8 * 1int, 8 * 1int + 8));
    assert forall|i: int| 0 <= i < d.len() implies vstd::bytes::spec_u64_from_le_bytes(
        #[trigger] rec.subrange(16 + 8 * i, 24 + 8 * i),
    ) == (d[i] + crate::metric::COORD_BOUND) as u64 by {
        assert(rec.subrange(16 + 8 * i, 24 + 8 * i) =~= rec.subrange(
            8 * (2 + i),
            8 * (2 + i) + 8,
        ));
        assert(ws[2 + i] == (d[i] + crate::metric::COORD_BOUND) as u64);
    }
    assert(rec.skip(16 + 8 * d.len() as int) =~= p);
}

/// Decodes one WAL record: the document id, the vector, and the payload.
/// Succeeds exactly on the byte strings `rec_bytes` produces for an in-range
/// vector; the decoded fields re-encode to the very record read.
#[verifier::loop_isolation(false)]
pub fn decode_record(rec: &[u8]) -> (r: Option<(u64, Vec<i64>, Vec<u8>)>)
    ensures
        match r {
            Some(t) => rec@ == rec_bytes(t.0, t.1@, t.2@) && coords_ok(t.1@) && t.1@.len()
                <= 0xffffffff,
            None => !(exists|id: u64, d: Seq<i64>, p: Seq<u8>|
                coords_ok(d) && d.len() <= 0xffffffff && #[trigger] rec_bytes(id, d, p) == rec@),
        },
{
    if rec.len() < 16 {
        proof {
            assert forall|id: u64, d: Seq<i64>, p: Seq<u8>|
                !(coords_ok(d) && d.len() <= 0xffffffff && #[trigger] rec_bytes(id, d, p)
                    == rec@) by {
                if coords_ok(d) && d.len() <= 0xffffffff && rec_bytes(id, d, p) == rec@ {
                    lemma_rec_words(rec@, id, d, p);
                }
            }
        }
        return None;
    }
    let id = vstd::bytes::u64_from_le_bytes(vstd::slice::slice_subrange(rec, 0, 8));
    let n64 = vstd::bytes::u64_from_le_bytes(vstd::slice::slice_subrange(rec, 8, 16));
    if n64 > 0xffffffff || n64 > ((rec.len() - 16) / 8) as u64 {
        proof {
            assert forall|id2: u64, d: Seq<i64>, p: Seq<u8>|
                !(coords_ok(d) && d.len() <= 0xffffffff && #[trigger] rec_bytes(id2, d, p)
                    == rec@) by {
                if coords_ok(d) && d.len() <= 0xffffffff && rec_bytes(id2, d, p) == rec@ {
                    lemma_rec_words(rec@, id2, d, p);
                    assert(n64 == d.len() as u64);
                    assert(8 * d.len() <= rec@.len() - 16);
                }
            }
        }
        return None;
    }
    let n = n64 as usize;
    let mut data: Vec<i64> = Vec::new();
    let mut i: usize = 0;
    while i < n
        invariant
            i <= n,
            16 + 8 * n <= rec@.len(),
            data@.len() == i,
            coords_ok(data@),
            forall|t: int|
                0 <= t < i ==> vstd::bytes::spec_u64_from_le_bytes(
                    #[trigger] rec@.subrange(16 + 8 * t, 24 + 8 * t),
                ) == (data@[t] + crate::metric::COORD_BOUND) as u64,
        decreases n - i,
    {
        let w = vstd::bytes::u64_from_le_bytes(
            vstd::slice::slice_subrange(rec, 16 + 8 * i, 24 + 8 * i),
        );
        if w > (2 * crate::metric::COORD_BOUND) as u64 {
            proof {
                assert forall|id2: u64, d: Seq<i64>, p: Seq<u8>|
                    !(coords_ok(d) && d.len() <= 0xffffffff && #[trigger] rec_bytes(id2, d, p)
                        == rec@) by {
                    if coords_ok(d) && d.len() <= 0xffffffff && rec_bytes(id2, d, p) == rec@ {
                        lemma_rec_words(rec@, id2, d, p);
                        assert(d.len() as u64 == n64);
                        assert(vstd::bytes::spec_u64_from_le_bytes(
                            rec@.subrange(16 + 8 * (i as int), 24 + 8 * (i as int)),
                        ) == (d[i as int] + crate::metric::COORD_BOUND) as u64);
                        assert(crate::metric::coord_ok(d[i as int]));
                    }
                }
            }
            return None;
        }
        let x: i64 = (w as i64) - crate::metric::COORD_BOUND;
        data.push(x);
        proof {
            assert(coords_ok(data@)) by {
                assert forall|t: int| 0 <= t < data@.len() implies crate::metric::coord_ok(
                    #[trigger] data@[t],
                ) by {}
            }
        }
        i += 1;
    }
    let mut payload: Vec<u8> = Vec::new();
    let mut t: usize = 16 + 8 * n;
    while t < rec.len()
        invariant
            16 + 8 * n <= t <= rec@.len(),
            payload@ == rec@.subrange(16 + 8 * n, t as int),
        decreases rec@.len() - t,
    {
        payload.push(rec[t]);
        proof {
            assert(payload@ =~= rec@.subrange(16 + 8 * n, t + 1));
        }
        t += 1;
    }
    proof {
        let ws = seq![id, data@.len() as u64] + crate::codec::ser_coords(data@);
        crate::codec::lemma_coords_blocks(data@);
        assert forall|w: int| 0 <= w < ws.len() implies ws[w] == crate::codec::words_of(
            rec@.subrange(0, 16 + 8 * (n as int)),
        )[w] by {
            let prefix = rec@.subrange(0, 16 + 8 * (n as int));
            assert(prefix.subrange(8 * w, 8 * w + 8) =~= rec@.subrange(8 * w, 8 * w + 8));
            if w == 0 {
                assert(rec@.subrange(8 * w, 8 * w + 8) =~= rec@.subrange(0, 8));
            } else if w == 1 {
                assert(rec@.subrange(8 * w, 8 * w + 8) =~= rec@.subrange(8, 16));
            } else {
                assert(rec@.subrange(16 + 8 * (w - 2), 24 + 8 * (w - 2)) =~= rec@.subrange(
                    8 * w,
                    8 * w + 8,
                ));
                assert(ws[w] == (data@[w - 2] + crate::metric::COORD_BOUND) as u64);
            }
        }
        assert(ws =~= crate::codec::words_of(rec@.subrange(0, 16 + 8 * (n as int))));
        crate::codec::lemma_bytes_of_words_of(rec@.subrange(0, 16 + 8 * (n as int)), ws);
        assert(payload@ =~= rec@.subrange(16 + 8 * n, rec@.len() as int));
        assert(rec@ =~= rec@.subrange(0, 16 + 8 * (n as int)) + payload@);
        assert(rec@ =~= rec_bytes(id, data@, payload@));
    }
    Some((id, data, payload))
}

/// Rotating the pool preserves distinct ids.
proof fn lemma_distinct_rotate(a: Seq<RowV>, b: Seq<RowV>)
    requires
        rows_distinct(a + b),
    ensures
        rows_distinct(b + a),
{
    assert forall|i: int, j: int| 0 <= i < j < (b + a).len() implies (b + a)[i].id != (b
        + a)[j].id by {
        let al = a.len() as int;
        let bl = b.len() as int;
        let mi = if i < bl {
            i + al
        } else {
            i - bl
        };
        let mj = if j < bl {
            j + al
        } else {
            j - bl
        };
        assert((b + a)[i] == (a + b)[mi]);
        assert((b + a)[j] == (a + b)[mj]);
        if mi < mj {
            assert((a + b)[mi].id != (a + b)[mj].id);
        } else {
            assert((a + b)[mj].id != (a + b)[mi].id);
        }
    }
}

impl CollectionImpl {
    /// Ensures the active engine can hold `size` more bytes: where it cannot,
    /// first waits out any pending flush of the immutable engine (the
    /// rendezvous the background task would otherwise perform), then rotates
    /// the active engine into the immutable slot and installs a fresh one.
    /// The rows themselves are all kept: the pool is only reordered.
    #[verifier::loop_isolation(false)]
    pub fn make_room_for_write(&mut self, size: u64) -> (rotated: bool)
        requires
            old(self).wf(),
        ensures
            final(self).wf(),
            final(self).next_id == old(self).next_id,
            final(self).config == old(self).config,
            rotated == !(old(self).mem.byte_size + size <= old(self).config.memtable_threshold),
            !rotated ==> *final(self) == *old(self),
            rotated ==> final(self).mem.rview() == Seq::<RowV>::empty() && final(self).mem.byte_size
                == 0 && final(self).mem.index.n() == 0
                && final(self).mem.wal.active_segment.records@ == Seq::<Seq<u8>>::empty() && final(self).imm_rows() == old(self).mem.rview() && final(self).pool() == stores_rows(
                old(self).disk_reader@,
            ) + old(self).imm_rows() + old(self).mem.rview(),
            rotated && old(self).imm is Some ==> final(self).disk_reader@.len() == old(
                self,
            ).disk_reader@.len() + 1,
    {
        if self.mem.check_room_for_write(size, self.config.memtable_threshold) {
            return false;
        }
        let ghost pre = *self;
        if self.imm.is_some() {
            self.do_mem_compaction();
            proof {
                assert(self.pool() =~= pre.pool());
            }
        }
        let ghost mid = *self;
        let fresh = Engine::new(&self.config);
        let mut old_mem = fresh;
        core::mem::swap(&mut old_mem, &mut self.mem);
        self.imm = Some(old_mem);
        proof {
            // pool was M + S + [] and is now [] + S + M
            assert(mid.imm_rows() =~= Seq::<RowV>::empty());
            assert(self.mem.rview() =~= Seq::<RowV>::empty());
            assert(self.pool() =~= stores_rows(mid.disk_reader@) + mid.mem.rview());
            assert(mid.pool() =~= mid.mem.rview() + stores_rows(mid.disk_reader@));
            lemma_distinct_rotate(mid.mem.rview(), stores_rows(mid.disk_reader@));
            assert forall|i: int| 0 <= i < self.pool().len() implies (#[trigger] self.pool()[i]).id
                < self.next_id by {
                let ml = mid.mem.rview().len() as int;
                let sl = stores_rows(mid.disk_reader@).len() as int;
                if i < sl {
                    assert(self.pool()[i] == mid.pool()[ml + i]);
                } else {
                    assert(self.pool()[i] == mid.pool()[i - sl]);
                }
            }
            if pre.imm is Some {
                assert(stores_rows(mid.disk_reader@) == stores_rows(pre.disk_reader@)
                    + pre.imm_rows());
            } else {
                assert(pre.imm_rows() =~= Seq::<RowV>::empty());
                assert(stores_rows(mid.disk_reader@) =~= stores_rows(pre.disk_reader@)
                    + pre.imm_rows());
            }
            assert(self.pool() =~= stores_rows(pre.disk_reader@) + pre.imm_rows()
                + pre.mem.rview());
        }
        true
    }

    /// Flushes the immutable engine, if any, to a new ground-level disk
    /// segment appended to the segment list, and clears the slot. The pool is
    /// unchanged: the rows move from the immutable engine to the new segment.
    #[verifier::loop_isolation(false)]
    pub fn do_mem_compaction(&mut self)
        requires
            old(self).wf(),
        ensures
            final(self).wf(),
            final(self).imm is None,
            final(self).mem == old(self).mem,
            final(self).next_id == old(self).next_id,
            final(self).config == old(self).config,
            final(self).comp == old(self).comp,
            final(self).pool() == old(self).pool(),
            old(self).imm is None ==> *final(self) == *old(self),
            old(self).imm is Some ==> final(self).disk_reader@.len() == old(
                self,
            ).disk_reader@.len() + 1 && final(self).disk_reader@[old(self).disk_reader@.len() as int].level
                == 0 && stores_rows(final(self).disk_reader@) == stores_rows(
                old(self).disk_reader@,
            ) + old(self).imm_rows(),
    {
        if self.imm.is_none() {
            return ;
        }
        let mut slot: Option<Engine> = None;
        core::mem::swap(&mut slot, &mut self.imm);
        let e = match slot {
            Some(e) => e,
            None => {
                proof {
                    assert(false);
                }
                return ;
            },
        };
        let ghost ev = e.rview();
        let mut rows: Vec<Row> = Vec::new();
        let n = e.index.nodes.len();
        let mut i: usize = 0;
        while i < n
            invariant
                rows@.len() == i <= n,
                forall|t: int| 0 <= t < i ==> crate::disk::rv(#[trigger] rows@[t]) == ev[t],
            decreases n - i,
        {
            proof {
                assert(e.index.node_ok(i as int));
            }
            let mut vec: Vec<i64> = Vec::new();
            let mut c: usize = 0;
            while c < e.index.nodes[i].p.len()
                invariant
                    i < n,
                    c <= e.index.nodes@[i as int].p@.len(),
                    vec@ == e.index.nodes@[i as int].p@.subrange(0, c as int),
                decreases e.index.nodes@[i as int].p@.len() - c,
            {
                vec.push(e.index.nodes[i].p[c]);
                c += 1;
            }
            let mut payload: Vec<u8> = Vec::new();
            let mut b: usize = 0;
            while b < e.docs[i].len()
                invariant
                    i < n,
                    i < e.docs@.len(),
                    b <= e.docs@[i as int]@.len(),
                    payload@ == e.docs@[i as int]@.subrange(0, b as int),
                decreases e.docs@[i as int]@.len() - b,
            {
                payload.push(e.docs[i][b]);
                b += 1;
            }
            proof {
                assert(vec@ =~= e.index.node_vec(i as int));
                assert(payload@ =~= e.docs@[i as int]@);
            }
            rows.push(Row { id: e.ids[i], vec, payload });
            i += 1;
        }
        proof {
            assert(rows_view(rows@) =~= ev);
            assert forall|t: int, u: int| 0 <= t < u < ev.len() implies ev[t].id != ev[u].id by {
                let base = old(self).mem.rview().len() + stores_rows(old(self).disk_reader@).len();
                assert(old(self).pool()[base + t] == ev[t]);
                assert(old(self).pool()[base + u] == ev[u]);
            }
        }
        proof {
            assert forall|t: int| 0 <= t < rows@.len() implies (#[trigger] rows@[t]).vec@.len()
                == e.index.dims && coords_ok(rows@[t].vec@) && e.index.node_vec(t)
                == rows@[t].vec@ by {
                assert(crate::disk::rv(rows@[t]) == ev[t]);
                assert(e.index.node_ok(t));
            }
        }
        let mut name = String::new();
        name.append(self.config.collect_name.as_str());
        crate::strutil::string_push_char(&mut name, '/');
        u32_pad_min9(self.next_table_id, &mut name);
        if self.next_table_id < 0xffffffff {
            self.next_table_id = self.next_table_id + 1;
        }
        let size = e.byte_size;
        let store = VectorStore::new(0, name, rows, e.index, size);
        let ghost pre_stores = self.disk_reader@;
        self.disk_reader.push(store);
        proof {
            assert(stores_rows(self.disk_reader@).len() >= 0);
            assert(self.disk_reader@.drop_last() =~= pre_stores);
            assert(stores_rows(self.disk_reader@) == stores_rows(pre_stores) + ev);
            assert(self.pool() =~= old(self).pool());
        }
    }

    /// The synchronous face of the background flush rendezvous: performs the
    /// pending flush and returns when it is complete.
    pub fn wait_mem_compaction(&mut self)
        requires
            old(self).wf(),
        ensures
            final(self).wf(),
            final(self).imm is None,
            final(self).pool() == old(self).pool(),
            final(self).mem == old(self).mem,
            final(self).next_id == old(self).next_id,
            final(self).config == old(self).config,
    {
        self.do_mem_compaction();
    }

    /// The validation and resource conditions under which `add` accepts a
    /// write: the configured dimensionality, in-range components, id space
    /// and payload-size headroom, and — unless the write triggers a rotation,
    /// which installs a fresh engine — headroom in the active engine's arena
    /// and log.
    pub open spec fn add_accepts(self, v: Vector) -> bool {
        &&& v.data@.len() == self.config.dims
        &&& coords_ok(v.data@)
        &&& self.next_id < 0xffffffffffffffff
        &&& v.payload@.len() < 0x8000000
        &&& {
            let rotates = !(self.mem.byte_size + rec_size_of(v)
                <= self.config.memtable_threshold);
            rotates || (self.mem.index.n() < 0xfffffffe
                && self.mem.wal.active_segment.buf@.len() < 0x7fffffff)
        }
    }

    /// Adds one write: issues the next id, rotates the active engine first
    /// where the write would not fit (the only path that blocks on a flush),
    /// appends to the WAL, inserts into the index, and returns the issued id
    /// rendered in decimal. Ids are issued strictly increasing from zero.
    /// Succeeds exactly on the writes `add_accepts` names; a write of the
    /// wrong dimensionality is rejected with the index untouched.
    #[verifier::loop_isolation(false)]
    pub fn add(&mut self, v: Vector) -> (r: Result<String, VBError>)
        requires
            old(self).wf(),
        ensures
            final(self).wf(),
            r is Ok <==> old(self).add_accepts(v),
            v.data@.len() != old(self).config.dims ==> r == Err::<String, VBError>(
                VBError::DimensionMismatch,
            ) && *final(self) == *old(self),
            match r {
                Ok(s) => {
                    &&& s@ == dec_of(old(self).next_id as nat)
                    &&& final(self).next_id == old(self).next_id + 1
                    &&& final(self).pool().len() == old(self).pool().len() + 1
                    &&& final(self).mem.rview().last() == RowV {
                        id: old(self).next_id,
                        vec: v.data@,
                        payload: v.payload@,
                    }
                    &&& final(self).mem.wal.active_segment.records@.last() == rec_bytes(
                        old(self).next_id,
                        v.data@,
                        v.payload@,
                    )
                    &&& final(self).mem.wal.active_segment.wf()
                    // rotation is observable: where the write does not fit the
                    // active engine, the old engine moves whole into the
                    // immutable slot and the write opens a fresh engine;
                    // where it fits, the engine grows in place
                    &&& {
                        let rotates = !(old(self).mem.byte_size + rec_size_of(v) <= old(
                            self,
                        ).config.memtable_threshold);
                        &&& rotates ==> final(self).imm_rows() == old(self).mem.rview()
                            && final(self).mem.rview() == seq![
                            (RowV { id: old(self).next_id, vec: v.data@, payload: v.payload@ }),
                        ]
                        &&& !rotates ==> final(self).imm == old(self).imm && final(self).mem.rview()
                            == old(self).mem.rview().push(
                            RowV { id: old(self).next_id, vec: v.data@, payload: v.payload@ },
                        ) && final(self).disk_reader@ == old(self).disk_reader@
                    }
                },
                Err(_) => true,
            },
    {
        if v.data.len() != self.config.dims {
            return Err(VBError::DimensionMismatch);
        }
        let mut c: usize = 0;
        while c < v.data.len()
            invariant
                c <= v.data@.len(),
                forall|t: int| 0 <= t < c ==> crate::metric::coord_ok(#[trigger] v.data@[t]),
            decreases v.data@.len() - c,
        {
            if v.data[c] < -crate::metric::COORD_BOUND || v.data[c] > crate::metric::COORD_BOUND {
                proof {
                    assert(!coords_ok(v.data@));
                }
                return Err(VBError::Unexpected(String::from_str(
                    "vector component out of range",
                )));
            }
            c += 1;
        }
        if self.next_id == 0xffffffffffffffff {
            return Err(VBError::Unexpected(String::from_str("id space exhausted")));
        }
        if v.payload.len() >= 0x8000000 {
            return Err(VBError::Unexpected(String::from_str("write too large")));
        }
        let rec_estimate: usize = 16 + 8 * v.data.len() + v.payload.len();
        let rotated = self.make_room_for_write(rec_estimate as u64);
        proof {
            if rotated {
                assert(wal_encode(Seq::<Seq<u8>>::empty()) =~= Seq::<u8>::empty());
                assert(self.mem.wal.active_segment.buf@.len() == 0);
            }
        }
        if self.mem.index.nodes.len() >= 0xfffffffe {
            return Err(VBError::Unexpected(String::from_str("memtable full")));
        }
        if self.mem.wal.active_segment.buf.len() >= 0x7fffffff {
            return Err(VBError::Unexpected(String::from_str("log full")));
        }
        let id = self.next_id;
        let ghost pre = *self;
        self.mem.add(id, v.data, v.payload);
        self.next_id = id + 1;
        proof {
            assert(self.mem.rview() == pre.mem.rview().push(
                RowV { id, vec: v.data@, payload: v.payload@ },
            ));
            lemma_pool_push_mem(pre, *self, RowV { id, vec: v.data@, payload: v.payload@ });
            assert(rec_estimate as int == rec_size_of(v));
            if rotated {
                assert(pre.mem.rview() =~= Seq::<RowV>::empty());
                assert(self.mem.rview() =~= seq![
                    (RowV { id, vec: v.data@, payload: v.payload@ }),
                ]);
                assert(self.imm_rows() == old(self).mem.rview());
            }
        }
        Ok(u64_to_dec(id))
    }
}

/// Whether a candidate is backed by a row in `rows[lo..hi]`: matching id,
/// and the true squared distance of that row's vector from the query.
pub open spec fn cand_in(rows: Seq<RowV>, qv: Seq<i64>, lo: int, hi: int, c: RankedResult) -> bool {
    exists|i: int|
        lo <= i < hi && i < rows.len() && (#[trigger] rows[i]).id == c.id && c.d == dist2(
            qv,
            rows[i].vec,
        )
}

/// One gathered candidate pool certifying a collection answer: candidates
/// distinct, each backed by a pool row with its true distance to the query,
/// the answer the exact top-k of the pool, and every segment's own exact
/// top-k contained in the pool whole — the collection merge is exact over
/// what the sources answered. Opaque: a caller unfolds it with
/// `reveal(merged_from)`.
#[verifier::opaque]
pub open spec fn merged_from(
    pool: Seq<RowV>,
    disk: Seq<VectorStore>,
    qv: Seq<i64>,
    k: int,
    res: Seq<RankedResult>,
    cs: Seq<RankedResult>,
) -> bool {
    &&& distinct_ids(cs)
    &&& forall|t: int| 0 <= t < cs.len() ==> cand_in(pool, qv, 0, pool.len() as int, #[trigger] cs[t])
    &&& crate::ranked::is_top_k(cs, k, res)
    &&& forall|s: int| 0 <= s < disk.len() ==> seg_topk_in(#[trigger] disk[s], qv, k, cs)
}

/// The segment's own exact top-k answer is contained whole in the gathered
/// candidates.
pub open spec fn seg_topk_in(seg: VectorStore, qv: Seq<i64>, k: int, cs: Seq<RankedResult>) -> bool {
    exists|bt: Seq<RankedResult>|
        crate::ranked::is_top_k(crate::disk::scored_of(seg.rview(), qv), k, bt) && (forall|t: int|
            0 <= t < bt.len() ==> cs.contains(#[trigger] bt[t]))
}

/// Per-source candidates for a query against one engine: the engine's index
/// answers with node indexes and true distances; each is mapped to its
/// document id.
#[verifier::loop_isolation(false)]
fn engine_candidates(e: &Engine, q: &Vec<i64>, k: usize) -> (r: Vec<RankedResult>)
    requires
        e.wf(),
        coords_ok(q@),
        q@.len() == e.index.dims,
        forall|i: int, j: int|
            0 <= i < j < e.rview().len() ==> e.rview()[i].id != e.rview()[j].id,
    ensures
        r@.len() <= k,
        distinct_ids(r@),
        k >= 1 && e.rview().len() > 0 ==> r@.len() >= 1,
        forall|t: int|
            0 <= t < r@.len() ==> cand_in(e.rview(), q@, 0, e.rview().len() as int, #[trigger]
            r@[t]),
{
    let mut r: Vec<RankedResult> = Vec::new();
    match e.index.query(q, k) {
        Err(_) => r,
        Ok(nbs) => {
            let mut t: usize = 0;
            while t < nbs.len()
                invariant
                    t <= nbs@.len(),
                    r@.len() == t,
                    forall|u: int|
                        0 <= u < t ==> (#[trigger] r@[u]).id == e.rview()[nbs@[u].id as int].id
                            && r@[u].d == dist2(q@, e.rview()[nbs@[u].id as int].vec),
                decreases nbs@.len() - t,
            {
                let nb = nbs[t];
                r.push(RankedResult { id: e.ids[nb.id as usize], d: nb.d });
                t += 1;
            }
            proof {
                assert forall|u1: int, u2: int| 0 <= u1 < u2 < r@.len() implies r@[u1].id
                    != r@[u2].id by {
                    let a = nbs@[u1].id as int;
                    let b = nbs@[u2].id as int;
                    assert(nbs@[u1].id != nbs@[u2].id);
                    if a < b {
                        assert(e.rview()[a].id != e.rview()[b].id);
                    } else {
                        assert(e.rview()[b].id != e.rview()[a].id);
                    }
                }
                assert forall|u: int| 0 <= u < r@.len() implies cand_in(
                    e.rview(),
                    q@,
                    0,
                    e.rview().len() as int,
                    #[trigger] r@[u],
                ) by {
                    let w = nbs@[u].id as int;
                    assert(0 <= w < e.rview().len() && e.rview()[w].id == r@[u].id && r@[u].d
                        == dist2(q@, e.rview()[w].vec));
                }
            }
            r
        },
    }
}

/// Appends one source's candidates: the sources occupy disjoint pool ranges,
/// so distinct ids are kept.
#[verifier::loop_isolation(false)]
fn push_batch(
    cands: &mut Vec<RankedResult>,
    batch: &Vec<RankedResult>,
    Ghost(pool): Ghost<Seq<RowV>>,
    Ghost(qv): Ghost<Seq<i64>>,
    Ghost(lo): Ghost<int>,
    Ghost(hi): Ghost<int>,
)
    requires
        rows_distinct(pool),
        0 <= lo <= hi <= pool.len(),
        distinct_ids(old(cands)@),
        distinct_ids(batch@),
        forall|t: int|
            0 <= t < old(cands)@.len() ==> cand_in(pool, qv, 0, lo, #[trigger] old(cands)@[t]),
        forall|t: int|
            0 <= t < batch@.len() ==> cand_in(pool, qv, lo, hi, #[trigger] batch@[t]),
    ensures
        final(cands)@ == old(cands)@ + batch@,
        final(cands)@.len() == old(cands)@.len() + batch@.len(),
        distinct_ids(final(cands)@),
        forall|t: int|
            0 <= t < final(cands)@.len() ==> cand_in(pool, qv, 0, hi, #[trigger] final(cands)@[t]),
{
    let ghost base = cands@;
    let mut t: usize = 0;
    while t < batch.len()
        invariant
            t <= batch@.len(),
            cands@ == base + batch@.subrange(0, t as int),
        decreases batch@.len() - t,
    {
        cands.push(batch[t]);
        proof {
            assert(cands@ =~= base + batch@.subrange(0, t + 1));
        }
        t += 1;
    }
    proof {
        assert(cands@ =~= base + batch@);
        let bl = base.len() as int;
        assert forall|u1: int, u2: int| 0 <= u1 < u2 < cands@.len() implies cands@[u1].id
            != cands@[u2].id by {
            if u1 < bl && u2 >= bl {
                let a = cands@[u1];
                let b = cands@[u2];
                assert(a == base[u1] && b == batch@[u2 - bl]);
                assert(cand_in(pool, qv, 0, lo, a));
                assert(cand_in(pool, qv, lo, hi, b));
                let i = choose|i: int|
                    0 <= i < lo && i < pool.len() && (#[trigger] pool[i]).id == a.id && a.d
                        == dist2(qv, pool[i].vec);
                let j = choose|j: int|
                    lo <= j < hi && j < pool.len() && (#[trigger] pool[j]).id == b.id && b.d
                        == dist2(qv, pool[j].vec);
                assert(pool[i].id != pool[j].id);
            } else if u1 >= bl {
                assert(cands@[u1] == batch@[u1 - bl] && cands@[u2] == batch@[u2 - bl]);
            } else {
                assert(cands@[u1] == base[u1] && cands@[u2] == base[u2]);
            }
        }
        assert forall|u: int| 0 <= u < cands@.len() implies cand_in(
            pool,
            qv,
            0,
            hi,
            #[trigger] cands@[u],
        ) by {
            if u < bl {
                assert(cands@[u] == base[u]);
                assert(cand_in(pool, qv, 0, lo, base[u]));
                let i = choose|i: int|
                    0 <= i < lo && i < pool.len() && (#[trigger] pool[i]).id == base[u].id
                        && base[u].d == dist2(qv, pool[i].vec);
                assert(0 <= i < hi && i < pool.len() && pool[i].id == cands@[u].id && cands@[u].d
                    == dist2(qv, pool[i].vec));
            } else {
                assert(cands@[u] == batch@[u - bl]);
                assert(cand_in(pool, qv, lo, hi, batch@[u - bl]));
                let i = choose|i: int|
                    lo <= i < hi && i < pool.len() && (#[trigger] pool[i]).id == batch@[u - bl].id
                        && batch@[u - bl].d == dist2(qv, pool[i].vec);
                assert(0 <= i < hi && i < pool.len() && pool[i].id == cands@[u].id && cands@[u].d
                    == dist2(qv, pool[i].vec));
            }
        }
    }
}

impl CollectionImpl {
    /// Fans the query out to the active engine, the immutable engine if
    /// present, and every disk segment; each source answers its own top-k
    /// (exact for segments, beam-searched for the engines), and the answers
    /// merge into the global top-k of all candidates. Every returned entry
    /// carries a stored document's id and its vector's true squared distance
    /// from the query, in strictly ascending rank order with no id repeated.
    /// Readers never block on writes: this takes the collection immutably.
    #[verifier::loop_isolation(false)]
    #[verifier::rlimit(100)]
    #[verifier::spinoff_prover]
    pub fn query(&self, q: &Vec<i64>, k: usize) -> (r: Result<Vec<RankedResult>, VBError>)
        requires
            self.wf(),
            coords_ok(q@),
        ensures
            q@.len() != self.config.dims ==> r == Err::<Vec<RankedResult>, VBError>(
                VBError::DimensionMismatch,
            ),
            q@.len() == self.config.dims ==> r is Ok,
            match r {
                Ok(res) => {
                    &&& res@.len() <= k
                    &&& distinct_ids(res@)
                    &&& (k >= 1 && self.pool().len() > 0 ==> res@.len() >= 1)
                    &&& res@.len() >= (if stores_rows(self.disk_reader@).len() <= k {
                        stores_rows(self.disk_reader@).len() as int
                    } else {
                        k as int
                    })
                    &&& forall|i: int, j: int|
                        0 <= i < j < res@.len() ==> crate::ranked::ranked_lt(res@[i], res@[j])
                    &&& forall|t: int|
                        0 <= t < res@.len() ==> cand_in(
                            self.pool(),
                            q@,
                            0,
                            self.pool().len() as int,
                            #[trigger] res@[t],
                        )
                    // the answer is the exact top-k of a gathered candidate
                    // pool: each candidate backed by a pool row with its true
                    // distance, and each segment contributing its own exact
                    // top-k whole
                    &&& exists|cs: Seq<RankedResult>|
                        merged_from(self.pool(), self.disk_reader@, q@, k as int, res@, cs)
                },
                Err(_) => true,
            },
    {
        if q.len() != self.config.dims {
            return Err(VBError::DimensionMismatch);
        }
        let ghost pool = self.pool();
        let ghost ml = self.mem.rview().len() as int;
        let ghost sl = stores_rows(self.disk_reader@).len() as int;
        let mut cands: Vec<RankedResult> = Vec::new();
        proof {
            assert forall|i: int, j: int| 0 <= i < j < self.mem.rview().len() implies
                self.mem.rview()[i].id != self.mem.rview()[j].id by {
                assert(pool[i] == self.mem.rview()[i] && pool[j] == self.mem.rview()[j]);
            }
        }
        let mem_batch = engine_candidates(&self.mem, q, k);
        proof {
            assert forall|t: int| 0 <= t < mem_batch@.len() implies cand_in(
                pool,
                q@,
                0,
                ml,
                #[trigger] mem_batch@[t],
            ) by {
                assert(cand_in(self.mem.rview(), q@, 0, ml, mem_batch@[t]));
                let i = choose|i: int|
                    0 <= i < ml && i < self.mem.rview().len() && (#[trigger] self.mem.rview()[i]).id
                        == mem_batch@[t].id && mem_batch@[t].d == dist2(
                        q@,
                        self.mem.rview()[i].vec,
                    );
                assert(pool[i] == self.mem.rview()[i]);
            }
        }
        push_batch(&mut cands, &mem_batch, Ghost(pool), Ghost(q@), Ghost(0int), Ghost(ml));
        proof {
            assert(stores_rows(self.disk_reader@.take(0)) =~= Seq::<RowV>::empty());
        }
        let ns = self.disk_reader.len();
        let mut s: usize = 0;
        let ghost mut batches: Seq<Seq<RankedResult>> = Seq::empty();
        while s < ns
            invariant
                s <= ns,
                distinct_ids(cands@),
                k >= 1 && self.mem.rview().len() > 0 ==> cands@.len() >= 1,
                cands@.len() >= (if stores_rows(self.disk_reader@.take(s as int)).len() <= k {
                    stores_rows(self.disk_reader@.take(s as int)).len() as int
                } else {
                    k as int
                }),
                forall|t: int|
                    0 <= t < cands@.len() ==> cand_in(
                        pool,
                        q@,
                        0,
                        ml + stores_rows(self.disk_reader@.take(s as int)).len() as int,
                        #[trigger] cands@[t],
                    ),
                batches.len() == s,
                forall|s2: int|
                    0 <= s2 < s ==> crate::ranked::is_top_k(
                        crate::disk::scored_of(self.disk_reader@[s2].rview(), q@),
                        k as int,
                        #[trigger] batches[s2],
                    ),
                forall|s2: int, t: int|
                    0 <= s2 < s && 0 <= t < batches[s2].len() ==> cands@.contains(
                        #[trigger] batches[s2][t],
                    ),
            decreases ns - s,
        {
            let ghost off = stores_rows(self.disk_reader@.take(s as int)).len() as int;
            proof {
                assert(self.disk_reader@[s as int].wf());
                lemma_stores_prefix(self.disk_reader@, s as int);
                lemma_stores_take_len(self.disk_reader@, s as int);
            }
            let batch = self.disk_reader[s].search(q, k);
            proof {
                let seg = self.disk_reader@[s as int];
                let sc = crate::disk::scored_of(seg.rview(), q@);
                assert forall|t: int| 0 <= t < batch@.len() implies cand_in(
                    pool,
                    q@,
                    ml + off,
                    ml + off + seg.rview().len() as int,
                    #[trigger] batch@[t],
                ) by {
                    assert(sc.contains(batch@[t]));
                    let j = choose|j: int| 0 <= j < sc.len() && sc[j] == batch@[t];
                    assert(stores_rows(self.disk_reader@.take(s + 1))[off + j] == seg.rview()[j]);
                    lemma_stores_take_extends(self.disk_reader@, s as int, off + j);
                    assert(pool[ml + off + j] == seg.rview()[j]);
                    assert(seg.rview()[j].vec == seg.rows@[j].vec@);
                    lemma_scored_fits(seg.rview(), q@, j);
                    assert(ml + off <= ml + off + j < ml + off + seg.rview().len() as int
                        && ml + off + j < pool.len() && pool[ml + off + j].id == batch@[t].id
                        && batch@[t].d == dist2(q@, pool[ml + off + j].vec));
                }
            }
            let ghost pre_cands_len = cands@.len() as int;
            let ghost pre_cands = cands@;
            push_batch(
                &mut cands,
                &batch,
                Ghost(pool),
                Ghost(q@),
                Ghost(ml + off),
                Ghost(ml + off + self.disk_reader@[s as int].rview().len() as int),
            );
            proof {
                batches = batches.push(batch@);
                assert forall|s2: int, t: int|
                    0 <= s2 < s + 1 && 0 <= t < batches[s2].len() implies cands@.contains(
                    #[trigger] batches[s2][t],
                ) by {
                    if s2 < s {
                        let w = choose|w: int|
                            0 <= w < pre_cands.len() && pre_cands[w] == batches[s2][t];
                        assert(cands@[w] == batches[s2][t]);
                    } else {
                        assert(batches[s2] == batch@);
                        assert(cands@[pre_cands.len() + t] == batch@[t]);
                    }
                }
            }
            proof {
                assert(self.disk_reader@.take(s + 1).drop_last() =~= self.disk_reader@.take(
                    s as int,
                ));
                assert(self.disk_reader@.take(s + 1).last() == self.disk_reader@[s as int]);
                let seg = self.disk_reader@[s as int];
                let segn = seg.rview().len() as int;
                assert(crate::disk::scored_of(seg.rview(), q@).len() == segn);
                assert(batch@.len() == (if segn <= k {
                    segn
                } else {
                    k as int
                }));
                assert(stores_rows(self.disk_reader@.take(s + 1)).len() == stores_rows(
                    self.disk_reader@.take(s as int),
                ).len() + segn);
                assert(cands@.len() == pre_cands_len + batch@.len());
            }
            s += 1;
        }
        proof {
            assert(self.disk_reader@.take(ns as int) =~= self.disk_reader@);
        }
        match &self.imm {
            Some(ie) => {
                proof {
                    assert forall|i: int, j: int| 0 <= i < j < ie.rview().len() implies
                        ie.rview()[i].id != ie.rview()[j].id by {
                        assert(pool[ml + sl + i] == ie.rview()[i] && pool[ml + sl + j]
                            == ie.rview()[j]);
                    }
                }
                let imm_batch = engine_candidates(ie, q, k);
                proof {
                    assert forall|t: int| 0 <= t < imm_batch@.len() implies cand_in(
                        pool,
                        q@,
                        ml + sl,
                        pool.len() as int,
                        #[trigger] imm_batch@[t],
                    ) by {
                        assert(cand_in(ie.rview(), q@, 0, ie.rview().len() as int, imm_batch@[t]));
                        let i = choose|i: int|
                            0 <= i < ie.rview().len() && i < ie.rview().len() && (#[trigger]
                            ie.rview()[i]).id == imm_batch@[t].id && imm_batch@[t].d == dist2(
                                q@,
                                ie.rview()[i].vec,
                            );
                        assert(pool[ml + sl + i] == ie.rview()[i]);
                        assert(ml + sl <= ml + sl + i < pool.len() && pool[ml + sl + i].id
                            == imm_batch@[t].id && imm_batch@[t].d == dist2(
                            q@,
                            pool[ml + sl + i].vec,
                        ));
                    }
                }
                let ghost pre_cands_len2 = cands@.len() as int;
                let ghost pre_cands2 = cands@;
                push_batch(
                    &mut cands,
                    &imm_batch,
                    Ghost(pool),
                    Ghost(q@),
                    Ghost(ml + sl),
                    Ghost(pool.len() as int),
                );
                proof {
                    assert(cands@.len() == pre_cands_len2 + imm_batch@.len());
                    assert forall|s2: int, t: int|
                        0 <= s2 < batches.len() && 0 <= t < batches[s2].len() implies
                        cands@.contains(#[trigger] batches[s2][t]) by {
                        assert(pre_cands2.contains(batches[s2][t]));
                        let w = choose|w: int|
                            0 <= w < pre_cands2.len() && pre_cands2[w] == batches[s2][t];
                        assert(cands@[w] == batches[s2][t]);
                    }
                }
            },
            None => {},
        }
        let res = top_k(&cands, k);
        proof {
            assert forall|t: int| 0 <= t < res@.len() implies cand_in(
                pool,
                q@,
                0,
                pool.len() as int,
                #[trigger] res@[t],
            ) by {
                assert(cands@.contains(res@[t]));
                let u = choose|u: int| 0 <= u < cands@.len() && cands@[u] == res@[t];
                assert(cand_in(pool, q@, 0, pool.len() as int, cands@[u]));
            }
            assert(res@.len() == (if cands@.len() <= k {
                cands@.len() as int
            } else {
                k as int
            }));
            assert(pool.len() == self.mem.rview().len() + stores_rows(self.disk_reader@).len()
                + self.imm_rows().len());
            if k >= 1 && pool.len() > 0 {
                if self.mem.rview().len() > 0 {
                } else if stores_rows(self.disk_reader@).len() > 0 {
                } else {
                    assert(self.imm_rows().len() > 0);
                    assert(self.imm is Some);
                }
                assert(cands@.len() >= 1);
            }
            // the gathered candidates certify the answer as an exact merge
            let csw = cands@;
            assert forall|t: int| 0 <= t < csw.len() implies cand_in(
                pool,
                q@,
                0,
                pool.len() as int,
                #[trigger] csw[t],
            ) by {
                if !(self.imm is Some) {
                    assert(self.imm_rows().len() == 0);
                    assert(pool.len() == ml + sl);
                }
            }
            lemma_merge_certificate(pool, self.disk_reader@, q@, k as int, res@, csw, batches);
            assert(pool == self.pool());
            assert(exists|cs: Seq<RankedResult>|
                merged_from(self.pool(), self.disk_reader@, q@, k as int, res@, cs)) by {
                let c = choose|c: Seq<RankedResult>|
                    merged_from(pool, self.disk_reader@, q@, k as int, res@, c);
                assert(merged_from(self.pool(), self.disk_reader@, q@, k as int, res@, c));
            }
        }
        Ok(res)
    }
}

/// Candidates gathered source by source — each segment's exact top-k
/// appended whole, every entry backed by the pool — certify the final
/// top-k as an exact merge.
proof fn lemma_merge_certificate(
    pool: Seq<RowV>,
    disk: Seq<VectorStore>,
    qv: Seq<i64>,
    k: int,
    res: Seq<RankedResult>,
    cs: Seq<RankedResult>,
    batches: Seq<Seq<RankedResult>>,
)
    requires
        distinct_ids(cs),
        forall|t: int| 0 <= t < cs.len() ==> cand_in(pool, qv, 0, pool.len() as int, #[trigger] cs[t]),
        crate::ranked::is_top_k(cs, k, res),
        batches.len() == disk.len(),
        forall|s: int|
            0 <= s < disk.len() ==> crate::ranked::is_top_k(
                crate::disk::scored_of((#[trigger] disk[s]).rview(), qv),
                k,
                batches[s],
            ),
        forall|s: int, t: int|
            0 <= s < batches.len() && 0 <= t < batches[s].len() ==> cs.contains(
                #[trigger] batches[s][t],
            ),
    ensures
        exists|c: Seq<RankedResult>| merged_from(pool, disk, qv, k, res, c),
{
    reveal(merged_from);
    assert forall|s: int| 0 <= s < disk.len() implies seg_topk_in(
        #[trigger] disk[s],
        qv,
        k,
        cs,
    ) by {
        assert(crate::ranked::is_top_k(
            crate::disk::scored_of(disk[s].rview(), qv),
            k,
            batches[s],
        ) && (forall|t: int| 0 <= t < batches[s].len() ==> cs.contains(#[trigger] batches[s][t])));
    }
    assert(merged_from(pool, disk, qv, k, res, cs));
}

proof fn lemma_stores_take_len(list: Seq<VectorStore>, s: int)
    requires
        0 <= s < list.len(),
    ensures
        stores_rows(list.take(s + 1)).len() <= stores_rows(list).len(),
    decreases list.len() - s,
{
    if s + 1 == list.len() {
        assert(list.take(s + 1) =~= list);
    } else {
        lemma_stores_prefix(list, s + 1);
        lemma_stores_take_len(list, s + 1);
    }
}

proof fn lemma_stores_prefix(list: Seq<VectorStore>, s: int)
    requires
        0 <= s < list.len(),
    ensures
        stores_rows(list.take(s + 1)) == stores_rows(list.take(s)) + list[s].rview(),
{
    assert(list.take(s + 1).drop_last() =~= list.take(s));
    assert(list.take(s + 1).last() == list[s]);
}

/// Rows of a prefix of the segment list sit at the same positions in the
/// rows of the whole list.
proof fn lemma_stores_take_extends(list: Seq<VectorStore>, s: int, i: int)
    requires
        0 <= s < list.len(),
        0 <= i < stores_rows(list.take(s + 1)).len(),
    ensures
        i < stores_rows(list).len(),
        stores_rows(list)[i] == stores_rows(list.take(s + 1))[i],
    decreases list.len() - s,
{
    if s + 1 == list.len() {
        assert(list.take(s + 1) =~= list);
    } else {
        lemma_stores_prefix(list, s + 1);
        lemma_stores_take_extends(list, s + 1, i);
    }
}

proof fn lemma_scored_fits(rows: Seq<RowV>, q: Seq<i64>, j: int)
    requires
        0 <= j < rows.len(),
        coords_ok(q),
        coords_ok(rows[j].vec),
        q.len() == rows[j].vec.len(),
        q.len() <= MAX_DIMS,
    ensures
        crate::disk::scored_of(rows, q)[j].id == rows[j].id,
        crate::disk::scored_of(rows, q)[j].d == dist2(q, rows[j].vec),
{
    crate::metric::lemma_dist2_upto_bounds(q, rows[j].vec, q.len() as int);
    assert((q.len() as int) * (crate::metric::MAX_SQ_DIFF as int) <= (MAX_DIMS as int) * (
    crate::metric::MAX_SQ_DIFF as int)) by (nonlinear_arith)
        requires
            q.len() <= MAX_DIMS,
    ;
}

/// Ids of every row of a segment list, in pool order.
#[verifier::loop_isolation(false)]
fn collect_store_ids(list: &Vec<VectorStore>) -> (ids: Vec<u64>)
    ensures
        ids@.len() == stores_rows(list@).len(),
        forall|t: int| 0 <= t < ids@.len() ==> ids@[t] == stores_rows(list@)[t].id,
{
    let mut ids: Vec<u64> = Vec::new();
    let ns = list.len();
    let mut s: usize = 0;
    proof {
        assert(stores_rows(list@.take(0)) =~= Seq::<RowV>::empty());
    }
    while s < ns
        invariant
            s <= ns,
            ids@.len() == stores_rows(list@.take(s as int)).len(),
            forall|t: int|
                0 <= t < ids@.len() ==> ids@[t] == stores_rows(list@.take(s as int))[t].id,
        decreases ns - s,
    {
        let ghost pre = ids@;
        let nr = list[s].rows.len();
        let mut j: usize = 0;
        while j < nr
            invariant
                j <= nr,
                ids@.len() == pre.len() + j,
                ids@.subrange(0, pre.len() as int) =~= pre,
                forall|t: int|
                    0 <= t < j ==> ids@[pre.len() + t] == list@[s as int].rows@[t].id,
        decreases nr - j,
        {
            ids.push(list[s].rows[j].id);
            j += 1;
        }
        proof {
            assert(list@.take(s + 1).drop_last() =~= list@.take(s as int));
            assert(list@.take(s + 1).last() == list@[s as int]);
            assert(stores_rows(list@.take(s + 1)) == stores_rows(list@.take(s as int))
                + list@[s as int].rview());
            assert forall|t: int| 0 <= t < ids@.len() implies ids@[t] == stores_rows(
                list@.take(s + 1),
            )[t].id by {
                if t < pre.len() {
                    assert(ids@.subrange(0, pre.len() as int)[t] == pre[t]);
                } else {
                    assert(list@[s as int].rview()[t - pre.len()].id == list@[s as int].rows@[t
                        - pre.len()].id);
                }
            }
        }
        s += 1;
    }
    proof {
        assert(list@.take(ns as int) =~= list@);
    }
    ids
}

/// Whether the ids are pairwise distinct and below the bound; checked
/// exactly.
#[verifier::loop_isolation(false)]
fn ids_distinct_bounded(ids: &Vec<u64>, bound: u64) -> (b: bool)
    ensures
        b == ((forall|i: int, j: int| 0 <= i < j < ids@.len() ==> ids@[i] != ids@[j]) && (
        forall|i: int| 0 <= i < ids@.len() ==> ids@[i] < bound)),
{
    let n = ids.len();
    let mut i: usize = 0;
    while i < n
        invariant
            i <= n,
            forall|t: int, u: int| 0 <= t < u < i ==> ids@[t] != ids@[u],
            forall|t: int| 0 <= t < i ==> ids@[t] < bound,
        decreases n - i,
    {
        if ids[i] >= bound {
            return false;
        }
        let mut j: usize = 0;
        while j < i
            invariant
                j <= i < n,
                forall|t: int| 0 <= t < j ==> ids@[t] != ids@[i as int],
            decreases i - j,
        {
            if ids[j] == ids[i] {
                return false;
            }
            j += 1;
        }
        i += 1;
    }
    true
}

/// Every row id of `b` occurs among `a`'s, and the counts match: the pool
/// kept exactly the ids it had.
/// Whether some row of `a` carries the id.
pub open spec fn id_in(a: Seq<RowV>, x: u64) -> bool {
    exists|j: int| 0 <= j < a.len() && (#[trigger] a[j]).id == x
}

/// The segment names of a list, in order.
pub open spec fn names_of(list: Seq<VectorStore>) -> Seq<Seq<char>> {
    Seq::new(list.len(), |i: int| list[i].collection_name@)
}

/// The list with every segment whose name is among `names` removed, order
/// otherwise kept: the shape of the segment list after a merge takes its
/// inputs out.
pub open spec fn remove_named(list: Seq<VectorStore>, names: Seq<Seq<char>>) -> Seq<VectorStore>
    decreases list.len(),
{
    if list.len() == 0 {
        Seq::empty()
    } else if names.contains(list.last().collection_name@) {
        remove_named(list.drop_last(), names)
    } else {
        remove_named(list.drop_last(), names).push(list.last())
    }
}

pub open spec fn ids_preserved(a: Seq<RowV>, b: Seq<RowV>) -> bool {
    &&& b.len() == a.len()
    &&& forall|i: int| 0 <= i < b.len() ==> id_in(a, (#[trigger] b[i]).id)
}

/// Swapping the segment part of a pool for one with the same ids preserves
/// the pool's ids; the engine parts are untouched.
proof fn lemma_ids_preserved_swap(
    m: Seq<RowV>,
    im: Seq<RowV>,
    od: Seq<VectorStore>,
    nd: Seq<VectorStore>,
    oids: Seq<u64>,
    nids: Seq<u64>,
)
    requires
        oids.len() == stores_rows(od).len(),
        forall|t: int| 0 <= t < oids.len() ==> oids[t] == stores_rows(od)[t].id,
        nids.len() == stores_rows(nd).len(),
        forall|t: int| 0 <= t < nids.len() ==> nids[t] == stores_rows(nd)[t].id,
        nids.len() == oids.len(),
        forall|i: int| 0 <= i < nids.len() ==> oids.contains(#[trigger] nids[i]),
    ensures
        ids_preserved(m + stores_rows(od) + im, m + stores_rows(nd) + im),
{
    let a = m + stores_rows(od) + im;
    let b = m + stores_rows(nd) + im;
    let ml = m.len() as int;
    let sl = stores_rows(nd).len() as int;
    assert(b.len() == a.len());
    assert forall|i: int| 0 <= i < b.len() implies id_in(a, (#[trigger] b[i]).id) by {
        if i < ml {
            assert(b[i] == m[i] && a[i] == m[i]);
            assert(0 <= i < a.len() && a[i].id == b[i].id);
        } else if i < ml + sl {
            assert(b[i] == stores_rows(nd)[i - ml]);
            assert(nids[i - ml] == stores_rows(nd)[i - ml].id);
            assert(oids.contains(nids[i - ml]));
            let w = choose|w: int| 0 <= w < oids.len() && oids[w] == nids[i - ml];
            assert(a[ml + w] == stores_rows(od)[w]);
            assert(0 <= ml + w < a.len() && a[ml + w].id == b[i].id);
        } else {
            assert(b[i] == im[i - ml - sl] && a[i] == im[i - ml - sl]);
            assert(0 <= i < a.len() && a[i].id == b[i].id);
        }
    }
}

/// Whether every id of `sub` occurs in `sup`; checked exactly.
#[verifier::loop_isolation(false)]
fn ids_subset(sub: &Vec<u64>, sup: &Vec<u64>) -> (b: bool)
    ensures
        b == forall|i: int| 0 <= i < sub@.len() ==> sup@.contains(#[trigger] sub@[i]),
{
    let n = sub.len();
    let mut i: usize = 0;
    while i < n
        invariant
            i <= n,
            forall|t: int| 0 <= t < i ==> sup@.contains(#[trigger] sub@[t]),
        decreases n - i,
    {
        let mut found = false;
        let mut j: usize = 0;
        while j < sup.len()
            invariant
                j <= sup@.len(),
                i < n,
                found ==> sup@.contains(sub@[i as int]),
                !found ==> forall|u: int| 0 <= u < j ==> sup@[u] != sub@[i as int],
            decreases sup@.len() - j,
        {
            if sup[j] == sub[i] {
                found = true;
                j = sup.len();
            } else {
                j += 1;
            }
        }
        if !found {
            proof {
                assert(!sup@.contains(sub@[i as int]));
            }
            return false;
        }
        i += 1;
    }
    true
}

impl CollectionImpl {
    /// One table-compaction cycle. Where the planner reports the scan level
    /// over its threshold, merges the planned segments into one segment at
    /// the next level and atomically swaps the segment list: the inputs
    /// leave, the merged segment arrives last, and the pool keeps exactly
    /// the document ids it had. Where any check fails — the merge inputs or
    /// the would-be list fail revalidation — nothing is deleted or replaced
    /// and the cycle retries later, the recoverable-failure rule for
    /// compaction. Foreground state (engines, ids) is untouched either way.
    #[verifier::loop_isolation(false)]
    pub fn table_compaction(&mut self) -> (did: bool)
        requires
            old(self).wf(),
        ensures
            final(self).wf(),
            final(self).mem == old(self).mem,
            final(self).imm == old(self).imm,
            final(self).next_id == old(self).next_id,
            final(self).config == old(self).config,
            final(self).comp.max_files_per_level == old(self).comp.max_files_per_level,
            final(self).comp.merge_files_per_level == old(self).comp.merge_files_per_level,
            !did ==> final(self).disk_reader@ == old(self).disk_reader@,
            count_at_level(old(self).disk_reader@, old(self).comp.cur_level as int) <= old(
                self,
            ).comp.max_files_per_level@[old(self).comp.cur_level as int] ==> !did && final(self).comp.cur_level == 0,
            did ==> {
                &&& count_at_level(old(self).disk_reader@, old(self).comp.cur_level as int) > old(
                    self,
                ).comp.max_files_per_level@[old(self).comp.cur_level as int]
                &&& final(self).comp.cur_level == ((old(self).comp.cur_level + 1) % 5)
                &&& final(self).disk_reader@.len() >= 1
                &&& final(self).disk_reader@.last().level == (if old(self).comp.cur_level + 1
                    < 4 {
                    old(self).comp.cur_level + 1
                } else {
                    4int
                })
                &&& ids_preserved(old(self).pool(), final(self).pool())
                // the list swap itself: some plan the planner's contract
                // describes left the list, the merged segment arrived last,
                // and the merged segment holds exactly the plan's rows
                &&& exists|pl: Seq<VectorStore>|
                    {
                        &&& crate::compaction::is_plan(
                            old(self).disk_reader@,
                            old(self).comp.cur_level as int,
                            old(self).comp.merge_files_per_level@[old(
                                self,
                            ).comp.cur_level as int] as int,
                            pl,
                        )
                        &&& crate::compaction::sviews(final(self).disk_reader@)
                            == crate::compaction::sviews(
                            remove_named(old(self).disk_reader@, names_of(pl)),
                        ).push(crate::compaction::sview(final(self).disk_reader@.last()))
                        &&& final(self).disk_reader@.last().rview() == stores_rows(pl)
                    }
            },
    {
        let need = self.comp.need_table_compact(&self.disk_reader);
        if !need {
            return false;
        }
        let ghost cur0 = self.comp.cur_level as int;
        let ghost width0 = self.comp.merge_files_per_level@[cur0] as int;
        let old_seg_ids = collect_store_ids(&self.disk_reader);
        let planned = self.comp.plan(&self.disk_reader);
        proof {
            assert(cur0 == old(self).comp.cur_level as int);
            assert(width0 == old(self).comp.merge_files_per_level@[cur0] as int);
            assert(crate::compaction::is_plan(self.disk_reader@, cur0, width0, planned@));
        }
        if planned.len() == 0 {
            return false;
        }
        let planned_ids = collect_store_ids(&planned);
        if planned_ids.len() > 0xffffffff {
            return false;
        }
        if !ids_distinct_bounded(&planned_ids, self.next_id) {
            return false;
        }
        proof {
            assert(rows_distinct(stores_rows(planned@))) by {
                assert forall|i: int, j: int|
                    0 <= i < j < stores_rows(planned@).len() implies stores_rows(planned@)[i].id
                    != stores_rows(planned@)[j].id by {
                    assert(planned_ids@[i] == stores_rows(planned@)[i].id);
                    assert(planned_ids@[j] == stores_rows(planned@)[j].id);
                }
            }
            assert forall|i: int| 0 <= i < planned@.len() implies (#[trigger] planned@[i]).index.dims
                == self.config.dims by {
                assert(crate::compaction::sviews(self.disk_reader@).contains(
                    crate::compaction::sview(planned@[i]),
                ));
                let j = choose|j: int|
                    0 <= j < crate::compaction::sviews(self.disk_reader@).len()
                        && crate::compaction::sviews(self.disk_reader@)[j]
                        == crate::compaction::sview(planned@[i]);
                assert(self.disk_reader@[j].wf());
            }
            assert forall|i: int| 0 <= i < planned@.len() implies (#[trigger] planned@[i]).index.dims
                == planned@[0].index.dims by {}
        }
        let mut name = String::new();
        name.append(self.config.collect_name.as_str());
        crate::strutil::string_push_char(&mut name, '/');
        u32_pad_min9(self.next_table_id, &mut name);
        if self.next_table_id < 0xffffffff {
            self.next_table_id = self.next_table_id + 1;
        }
        let merged = match self.comp.compact(name, &planned) {
            Ok(s) => s,
            Err(_) => {
                proof {
                    assert(false);
                }
                return false;
            },
        };
        let mut newlist: Vec<VectorStore> = Vec::new();
        let nd = self.disk_reader.len();
        let mut t: usize = 0;
        while t < nd
            invariant
                t <= nd,
                forall|u: int|
                    0 <= u < newlist@.len() ==> (#[trigger] newlist@[u]).wf()
                        && newlist@[u].index.dims == self.config.dims,
                crate::compaction::sviews(newlist@) == crate::compaction::sviews(
                    remove_named(self.disk_reader@.take(t as int), names_of(planned@)),
                ),
            decreases nd - t,
        {
            let mut keep = true;
            let mut p: usize = 0;
            while p < planned.len()
                invariant
                    p <= planned@.len(),
                    !keep ==> names_of(planned@).contains(
                        self.disk_reader@[t as int].collection_name@,
                    ),
                    keep ==> forall|u: int|
                        0 <= u < p ==> (#[trigger] planned@[u]).collection_name@
                            != self.disk_reader@[t as int].collection_name@,
                decreases planned@.len() - p,
            {
                if planned[p].collection_name.eq(&self.disk_reader[t].collection_name) {
                    keep = false;
                    proof {
                        assert(names_of(planned@)[p as int]
                            == planned@[p as int].collection_name@);
                    }
                    p = planned.len();
                } else {
                    p += 1;
                }
            }
            proof {
                let d = self.disk_reader@;
                let nm = names_of(planned@);
                let ghost prev = remove_named(d.take(t as int), nm);
                assert(d.take(t + 1).drop_last() =~= d.take(t as int));
                assert(d.take(t + 1).last() == d[t as int]);
                if keep {
                    assert(!nm.contains(d[t as int].collection_name@)) by {
                        if nm.contains(d[t as int].collection_name@) {
                            let u = choose|u: int|
                                0 <= u < nm.len() && nm[u] == d[t as int].collection_name@;
                            assert(nm[u] == planned@[u].collection_name@);
                        }
                    }
                    assert(remove_named(d.take(t + 1), nm) == prev.push(d[t as int]));
                } else {
                    assert(remove_named(d.take(t + 1), nm) == prev);
                }
            }
            if keep {
                proof {
                    assert(self.disk_reader@[t as int].wf());
                }
                let ghost before = newlist@;
                let c = crate::compaction::copy_store(&self.disk_reader[t]);
                newlist.push(c);
                proof {
                    let d = self.disk_reader@;
                    let nm = names_of(planned@);
                    let prev = remove_named(d.take(t as int), nm);
                    assert(crate::compaction::sviews(newlist@) =~= crate::compaction::sviews(
                        before,
                    ).push(crate::compaction::sview(d[t as int])));
                    assert(crate::compaction::sviews(prev.push(d[t as int]))
                        =~= crate::compaction::sviews(prev).push(
                        crate::compaction::sview(d[t as int]),
                    ));
                }
            }
            t += 1;
        }
        proof {
            assert(merged.index.dims == planned@[0].index.dims);
            assert(self.disk_reader@.take(nd as int) =~= self.disk_reader@);
        }
        let ghost kept_views = crate::compaction::sviews(newlist@);
        newlist.push(merged);
        proof {
            assert(crate::compaction::sviews(newlist@) =~= kept_views.push(
                crate::compaction::sview(newlist@.last()),
            ));
        }
        let mut pool_ids: Vec<u64> = Vec::new();
        let mut m: usize = 0;
        while m < self.mem.ids.len()
            invariant
                m <= self.mem.ids@.len(),
                pool_ids@.len() == m,
                forall|u: int| 0 <= u < m ==> pool_ids@[u] == self.mem.rview()[u].id,
            decreases self.mem.ids@.len() - m,
        {
            pool_ids.push(self.mem.ids[m]);
            m += 1;
        }
        let mut seg_ids = collect_store_ids(&newlist);
        let ghost pre_all = pool_ids@;
        let ghost segids = seg_ids@;
        pool_ids.append(&mut seg_ids);
        proof {
            assert(pool_ids@ =~= pre_all + segids);
        }
        let ghost base2 = pool_ids@;
        match &self.imm {
            Some(ie) => {
                let mut w: usize = 0;
                while w < ie.ids.len()
                    invariant
                        w <= ie.ids@.len(),
                        pool_ids@.len() == base2.len() + w,
                        pool_ids@.subrange(0, base2.len() as int) =~= base2,
                        forall|u: int|
                            0 <= u < w ==> pool_ids@[base2.len() + u] == ie.rview()[u].id,
                    decreases ie.ids@.len() - w,
                {
                    pool_ids.push(ie.ids[w]);
                    w += 1;
                }
            },
            None => {},
        }
        let ghost candidate_pool = self.mem.rview() + stores_rows(newlist@) + self.imm_rows();
        proof {
            let ml = self.mem.rview().len() as int;
            let sl = stores_rows(newlist@).len() as int;
            assert(pre_all.len() == ml && segids.len() == sl);
            assert(pool_ids@.len() == candidate_pool.len());
            assert forall|u: int| 0 <= u < pool_ids@.len() implies pool_ids@[u]
                == candidate_pool[u].id by {
                if u < ml {
                    assert(candidate_pool[u] == self.mem.rview()[u]);
                    assert(pool_ids@.subrange(0, base2.len() as int)[u] == base2[u]);
                    assert(base2[u] == pre_all[u]);
                } else if u < ml + sl {
                    assert(candidate_pool[u] == stores_rows(newlist@)[u - ml]);
                    assert(pool_ids@.subrange(0, base2.len() as int)[u] == base2[u]);
                    assert(base2[u] == segids[u - ml]);
                } else {
                    assert(candidate_pool[u] == self.imm_rows()[u - ml - sl]);
                }
            }
        }
        let new_seg_ids = collect_store_ids(&newlist);
        if new_seg_ids.len() != old_seg_ids.len() {
            return false;
        }
        if !ids_subset(&new_seg_ids, &old_seg_ids) {
            return false;
        }
        if ids_distinct_bounded(&pool_ids, self.next_id) {
            let ghost old_pool = self.pool();
            let ghost old_disk = self.disk_reader@;
            proof {
                assert(old_pool == old(self).pool());
                assert(old_disk == old(self).disk_reader@);
            }
            self.disk_reader = newlist;
            proof {
                assert(self.pool() =~= candidate_pool);
                assert forall|i: int, j: int| 0 <= i < j < self.pool().len() implies
                    self.pool()[i].id != self.pool()[j].id by {
                    assert(pool_ids@[i] == candidate_pool[i].id);
                    assert(pool_ids@[j] == candidate_pool[j].id);
                }
                assert forall|i: int| 0 <= i < self.pool().len() implies (#[trigger]
                self.pool()[i]).id < self.next_id by {
                    assert(pool_ids@[i] == candidate_pool[i].id);
                }
                // the pool keeps exactly the ids it had: the segment swap is
                // an id permutation, the engines untouched
                lemma_ids_preserved_swap(
                    self.mem.rview(),
                    self.imm_rows(),
                    old_disk,
                    self.disk_reader@,
                    old_seg_ids@,
                    new_seg_ids@,
                );
                assert(ids_preserved(old_pool, self.pool()));
                // the plan the body executed witnesses the list swap
                assert(crate::compaction::is_plan(
                    old(self).disk_reader@,
                    old(self).comp.cur_level as int,
                    old(self).comp.merge_files_per_level@[old(self).comp.cur_level as int] as int,
                    planned@,
                ));
                assert(crate::compaction::sviews(self.disk_reader@)
                    == crate::compaction::sviews(
                    remove_named(old(self).disk_reader@, names_of(planned@)),
                ).push(crate::compaction::sview(self.disk_reader@.last())));
                assert(self.disk_reader@.last().rview() == stores_rows(planned@));
            }
            true
        } else {
            false
        }
    }
}

/// The public face of a collection. The surrounding program owns the
/// background scheduling (it calls `table_compaction` and
/// `do_mem_compaction` from its tasks); the state and its transitions live
/// here.
pub struct Collection(pub CollectionImpl);

impl Collection {
    pub fn new(schema: Schema, config: Config) -> (r: Result<Collection, VBError>)
        ensures
            match r {
                Ok(c) => config.wf() && c.0.wf() && c.0.pool() == Seq::<RowV>::empty(),
                Err(e) => !config.wf() && e is Unexpected,
            },
    {
        match CollectionImpl::new(schema, config) {
            Ok(inner) => Ok(Collection(inner)),
            Err(e) => Err(e),
        }
    }

    /// See `CollectionImpl::add`.
    pub fn add(&mut self, v: Vector) -> (r: Result<String, VBError>)
        requires
            old(self).0.wf(),
        ensures
            final(self).0.wf(),
            r is Ok <==> old(self).0.add_accepts(v),
            v.data@.len() != old(self).0.config.dims ==> r == Err::<String, VBError>(
                VBError::DimensionMismatch,
            ) && *final(self) == *old(self),
            match r {
                Ok(s) => {
                    &&& s@ == dec_of(old(self).0.next_id as nat)
                    &&& final(self).0.next_id == old(self).0.next_id + 1
                    &&& final(self).0.pool().len() == old(self).0.pool().len() + 1
                    &&& final(self).0.mem.rview().last() == RowV {
                        id: old(self).0.next_id,
                        vec: v.data@,
                        payload: v.payload@,
                    }
                    &&& final(self).0.mem.wal.active_segment.records@.last() == rec_bytes(
                        old(self).0.next_id,
                        v.data@,
                        v.payload@,
                    )
                    &&& {
                        let rotates = !(old(self).0.mem.byte_size + rec_size_of(v) <= old(
                            self,
                        ).0.config.memtable_threshold);
                        &&& rotates ==> final(self).0.imm_rows() == old(self).0.mem.rview()
                            && final(self).0.mem.rview() == seq![
                            (RowV { id: old(self).0.next_id, vec: v.data@, payload: v.payload@ }),
                        ]
                        &&& !rotates ==> final(self).0.imm == old(self).0.imm
                            && final(self).0.mem.rview() == old(self).0.mem.rview().push(
                            RowV { id: old(self).0.next_id, vec: v.data@, payload: v.payload@ },
                        ) && final(self).0.disk_reader@ == old(self).0.disk_reader@
                    }
                },
                Err(_) => true,
            },
    {
        self.0.add(v)
    }

    /// See `CollectionImpl::query`.
    pub fn query(&self, q: &Vec<i64>, k: usize) -> (r: Result<Vec<RankedResult>, VBError>)
        requires
            self.0.wf(),
            coords_ok(q@),
        ensures
            q@.len() == self.0.config.dims ==> r is Ok,
            match r {
                Ok(res) => {
                    &&& res@.len() <= k
                    &&& distinct_ids(res@)
                    &&& (k >= 1 && self.0.pool().len() > 0 ==> res@.len() >= 1)
                    &&& res@.len() >= (if stores_rows(self.0.disk_reader@).len() <= k {
                        stores_rows(self.0.disk_reader@).len() as int
                    } else {
                        k as int
                    })
                    &&& forall|i: int, j: int|
                        0 <= i < j < res@.len() ==> crate::ranked::ranked_lt(res@[i], res@[j])
                    &&& forall|t: int|
                        0 <= t < res@.len() ==> cand_in(
                            self.0.pool(),
                            q@,
                            0,
                            self.0.pool().len() as int,
                            #[trigger] res@[t],
                        )
                    &&& exists|cs: Seq<RankedResult>|
                        merged_from(self.0.pool(), self.0.disk_reader@, q@, k as int, res@, cs)
                },
                Err(_) => true,
            },
    {
        self.0.query(q, k)
    }
}

/// Appending one fresh row to the active engine inserts it into the pool and
/// keeps ids distinct and bounded.
proof fn lemma_pool_push_mem(a: CollectionImpl, b: CollectionImpl, row: RowV)
    requires
        a.wf(),
        b.mem.rview() == a.mem.rview().push(row),
        b.disk_reader@ == a.disk_reader@,
        b.imm == a.imm,
        b.config == a.config,
        b.comp == a.comp,
        a.next_id <= row.id,
        b.next_id == row.id + 1,
        b.engine_matches(b.mem),
        b.comp.wf(),
    ensures
        rows_distinct(b.pool()),
        forall|i: int| 0 <= i < b.pool().len() ==> (#[trigger] b.pool()[i]).id < b.next_id,
        b.pool().len() == a.pool().len() + 1,
{
    let ml = a.mem.rview().len() as int;
    let rest = stores_rows(a.disk_reader@) + a.imm_rows();
    assert(a.pool() =~= a.mem.rview() + rest);
    assert(b.imm_rows() == a.imm_rows());
    assert(b.pool() =~= a.mem.rview().push(row) + rest);
    assert forall|i: int| 0 <= i < b.pool().len() implies (#[trigger] b.pool()[i]).id
        < b.next_id by {
        if i < ml {
            assert(b.pool()[i] == a.pool()[i]);
        } else if i == ml {
            assert(b.pool()[i] == row);
        } else {
            assert(b.pool()[i] == a.pool()[i - 1]);
        }
    }
    assert forall|i: int, j: int| 0 <= i < j < b.pool().len() implies b.pool()[i].id
        != b.pool()[j].id by {
        if i < ml && j < ml {
            assert(b.pool()[i] == a.pool()[i] && b.pool()[j] == a.pool()[j]);
        } else if i < ml && j == ml {
            assert(b.pool()[i] == a.pool()[i] && b.pool()[j] == row);
            assert(a.pool()[i].id < a.next_id);
        } else if i < ml && j > ml {
            assert(b.pool()[i] == a.pool()[i] && b.pool()[j] == a.pool()[j - 1]);
        } else if i == ml {
            assert(b.pool()[i] == row && b.pool()[j] == a.pool()[j - 1]);
            assert(a.pool()[j - 1].id < a.next_id && a.next_id <= row.id);
        } else {
            assert(b.pool()[i] == a.pool()[i - 1] && b.pool()[j] == a.pool()[j - 1]);
        }
    }
}

} // verus!
