use crate::error::VBError;
use crate::hnsw::HNSW;
use crate::metric::coords_ok;
use crate::metric::dist2;
use crate::metric::distance;
use crate::ranked::distinct_ids;
use crate::ranked::is_top_k;
use crate::ranked::top_k;
use crate::ranked::RankedResult;
use vstd::prelude::*;
use vstd::slice::slice_subrange;

verus! {

/// One stored document: its id, its vector, and its opaque payload bytes.
pub struct Row {
    pub id: u64,
    pub vec: Vec<i64>,
    pub payload: Vec<u8>,
}

/// Ghost image of a row.
pub ghost struct RowV {
    pub id: u64,
    pub vec: Seq<i64>,
    pub payload: Seq<u8>,
}

pub open spec fn rv(r: Row) -> RowV {
    RowV { id: r.id, vec: r.vec@, payload: r.payload@ }
}

pub open spec fn rows_view(rows: Seq<Row>) -> Seq<RowV> {
    Seq::new(rows.len(), |i: int| rv(rows[i]))
}

pub open spec fn rows_distinct(rows: Seq<RowV>) -> bool {
    forall|i: int, j: int| 0 <= i < j < rows.len() ==> rows[i].id != rows[j].id
}

/// Every row of the sources, sources in order.
pub open spec fn stores_rows(list: Seq<VectorStore>) -> Seq<RowV>
    decreases list.len(),
{
    if list.len() == 0 {
        Seq::empty()
    } else {
        stores_rows(list.drop_last()) + list.last().rview()
    }
}

/// Each row scored against a query: its id with the squared distance of its
/// vector from the query.
pub open spec fn scored_of(rows: Seq<RowV>, q: Seq<i64>) -> Seq<RankedResult> {
    Seq::new(rows.len(), |i: int| RankedResult { id: rows[i].id, d: dist2(q, rows[i].vec) as u64 })
}

/// An immutable disk segment as the logic reads it: its compaction level,
/// its name (the segment directory's name on disk), its rows, the vector
/// index built over them, and the byte size of its backing files. Never
/// mutated after construction; compaction always produces a new segment.
pub struct VectorStore {
    pub level: usize,
    pub collection_name: String,
    pub rows: Vec<Row>,
    pub index: HNSW,
    pub file_size: u64,
}

impl VectorStore {
    pub open spec fn rview(self) -> Seq<RowV> {
        rows_view(self.rows@)
    }

    pub open spec fn wf(self) -> bool {
        &&& self.index.wf()
        &&& self.index.n() == self.rows@.len()
        &&& forall|i: int|
            0 <= i < self.rows@.len() ==> (#[trigger] self.rows@[i]).vec@.len()
                == self.index.dims && coords_ok(self.rows@[i].vec@) && self.index.node_vec(i)
                == self.rows@[i].vec@
        &&& rows_distinct(self.rview())
    }

    /// Builds a segment from rows and a matching index.
    pub fn new(
        level: usize,
        collection_name: String,
        rows: Vec<Row>,
        index: HNSW,
        file_size: u64,
    ) -> (s: VectorStore)
        requires
            index.wf(),
            index.n() == rows@.len(),
            forall|i: int|
                0 <= i < rows@.len() ==> (#[trigger] rows@[i]).vec@.len() == index.dims
                    && coords_ok(rows@[i].vec@) && index.node_vec(i) == rows@[i].vec@,
            rows_distinct(rows_view(rows@)),
        ensures
            s.wf(),
            s.level == level,
            s.collection_name@ == collection_name@,
            s.rview() == rows_view(rows@),
            s.file_size == file_size,
            s.index == index,
    {
        VectorStore { level, collection_name, rows, index, file_size }
    }

    pub fn level(&self) -> (l: usize)
        ensures
            l == self.level,
    {
        self.level
    }

    pub fn file_size(&self) -> (s: u64)
        ensures
            s == self.file_size,
    {
        self.file_size
    }

    pub fn collection_name(&self) -> (n: &String)
        ensures
            n@ == self.collection_name@,
    {
        &self.collection_name
    }

    /// Exact nearest-neighbor search over this segment's rows: the true
    /// top-k by squared distance, ties broken by id.
    #[verifier::loop_isolation(false)]
    pub fn search(&self, q: &Vec<i64>, k: usize) -> (r: Vec<RankedResult>)
        requires
            self.wf(),
            coords_ok(q@),
            q@.len() == self.index.dims,
        ensures
            is_top_k(scored_of(self.rview(), q@), k as int, r@),
            distinct_ids(r@),
    {
        let ghost sc = scored_of(self.rview(), q@);
        let mut items: Vec<RankedResult> = Vec::new();
        let n = self.rows.len();
        let mut i: usize = 0;
        while i < n
            invariant
                i <= n,
                items@ == sc.take(i as int),
            decreases n - i,
        {
            let d = distance(q, &self.rows[i].vec);
            items.push(RankedResult { id: self.rows[i].id, d });
            proof {
                assert(items@ =~= sc.take(i + 1));
            }
            i += 1;
        }
        proof {
            assert(items@ =~= sc);
            assert(distinct_ids(items@));
        }
        top_k(&items, k)
    }
}

/// Copies a row.
fn copy_row(r: &Row) -> (c: Row)
    ensures
        rv(c) == rv(*r),
        c.vec@ == r.vec@,
        c.id == r.id,
{
    let mut vec: Vec<i64> = Vec::new();
    let mut i: usize = 0;
    while i < r.vec.len()
        invariant
            i <= r.vec@.len(),
            vec@ == r.vec@.subrange(0, i as int),
        decreases r.vec@.len() - i,
    {
        vec.push(r.vec[i]);
        i += 1;
    }
    let mut payload: Vec<u8> = Vec::new();
    let mut j: usize = 0;
    while j < r.payload.len()
        invariant
            j <= r.payload@.len(),
            payload@ == r.payload@.subrange(0, j as int),
        decreases r.payload@.len() - j,
    {
        payload.push(r.payload[j]);
        j += 1;
    }
    proof {
        assert(vec@ =~= r.vec@);
        assert(payload@ =~= r.payload@);
    }
    Row { id: r.id, vec, payload }
}

/// Merges several segments into one new segment at the given level: its rows
/// are the inputs' rows, in order, and its vector index is the inputs'
/// indexes merged. The inputs are left untouched; the caller publishes the
/// result and retires them.
#[verifier::loop_isolation(false)]
pub fn merge_much(list: &Vec<VectorStore>, collection_name: String, level: usize) -> (r: Result<
    VectorStore,
    VBError,
>)
    requires
        list@.len() >= 1,
        forall|i: int| 0 <= i < list@.len() ==> (#[trigger] list@[i]).wf(),
        forall|i: int|
            0 <= i < list@.len() ==> (#[trigger] list@[i]).index.dims == list@[0].index.dims,
        stores_rows(list@).len() <= 0xffffffff,
        rows_distinct(stores_rows(list@)),
    ensures
        r is Ok,
        match r {
            Ok(s) => {
                &&& s.wf()
                &&& s.rview() == stores_rows(list@)
                &&& s.level == level
                &&& s.collection_name@ == collection_name@
                &&& s.index.dims == list@[0].index.dims
                &&& s.file_size as int == if sizes_sum(list@) <= u64::MAX as int {
                    sizes_sum(list@)
                } else {
                    u64::MAX as int
                }
            },
            Err(_) => false,
        },
{
    let first = &list[0];
    let mut index = HNSW::new(
        first.index.m,
        first.index.ef_construction,
        first.index.ef_search,
        first.index.max_level,
        first.index.dims,
    );
    let mut rows: Vec<Row> = Vec::new();
    let mut i: usize = 0;
    proof {
        assert(stores_rows(list@.take(0)) =~= Seq::<RowV>::empty());
        assert(rows_view(rows@) =~= Seq::<RowV>::empty());
    }
    while i < list.len()
        invariant
            i <= list@.len(),
            index.wf(),
            index.n() == rows@.len(),
            index.m == first.index.m,
            index.ef_construction == first.index.ef_construction,
            index.ef_search == first.index.ef_search,
            index.max_level == first.index.max_level,
            index.dims == first.index.dims,
            rows_view(rows@) == stores_rows(list@.take(i as int)),
            forall|t: int|
                0 <= t < rows@.len() ==> (#[trigger] rows@[t]).vec@.len() == index.dims
                    && coords_ok(rows@[t].vec@) && index.node_vec(t) == rows@[t].vec@,
        decreases list@.len() - i,
    {
        let s = &list[i];
        proof {
            assert(s.wf());
            assert(stores_rows(list@.take(i + 1)) == stores_rows(list@.take(i + 1).drop_last())
                + list@.take(i + 1).last().rview());
            assert(list@.take(i + 1).drop_last() =~= list@.take(i as int));
            assert(list@.take(i + 1).last() == list@[i as int]);
            lemma_stores_rows_len_bound(list@, i as int);
        }
        let merged = match index.merge(&s.index) {
            Ok(h) => h,
            Err(_) => {
                proof {
                    assert(false);
                }
                return Err(VBError::CorruptIndex);
            },
        };
        index = merged;
        let ghost pre_rows = rows@;
        let mut t: usize = 0;
        while t < s.rows.len()
            invariant
                t <= s.rows@.len(),
                rows@.len() == pre_rows.len() + t,
                rows@.subrange(0, pre_rows.len() as int) =~= pre_rows,
                forall|u: int|
                    0 <= u < t ==> rv(#[trigger] rows@[pre_rows.len() + u]) == rv(s.rows@[u]),
            decreases s.rows@.len() - t,
        {
            let c = copy_row(&s.rows[t]);
            rows.push(c);
            t += 1;
        }
        proof {
            assert forall|u: int| 0 <= u < rows@.len() implies rows_view(rows@)[u] == (
            stores_rows(list@.take(i as int)) + s.rview())[u] && (#[trigger] rows@[u]).vec@.len()
                == index.dims && coords_ok(rows@[u].vec@) && index.node_vec(u)
                == rows@[u].vec@ by {
                if u < pre_rows.len() {
                    assert(rows@.subrange(0, pre_rows.len() as int)[u] == pre_rows[u]);
                    assert(rows@[u] == pre_rows[u]);
                    assert(rows_view(pre_rows)[u] == rv(pre_rows[u]));
                    assert(stores_rows(list@.take(i as int))[u] == rv(pre_rows[u]));
                } else {
                    let u2 = u - pre_rows.len();
                    assert(rv(rows@[pre_rows.len() + u2]) == rv(s.rows@[u2]));
                    assert(s.rview()[u2] == rv(s.rows@[u2]));
                    assert(s.index.node_vec(u2) == s.rows@[u2].vec@);
                }
            }
            assert(rows_view(rows@) =~= stores_rows(list@.take(i as int)) + s.rview());
        }
        i += 1;
    }
    proof {
        assert(list@.take(list@.len() as int) =~= list@);
        assert(rows_distinct(rows_view(rows@)));
    }
    let mut size: u64 = 0;
    let mut si: usize = 0;
    proof {
        assert(sizes_sum(list@.take(0)) == 0);
    }
    while si < list.len()
        invariant
            si <= list@.len(),
            size as int == if sizes_sum(list@.take(si as int)) <= u64::MAX as int {
                sizes_sum(list@.take(si as int))
            } else {
                u64::MAX as int
            },
        decreases list@.len() - si,
    {
        proof {
            assert(list@.take(si + 1).drop_last() =~= list@.take(si as int));
            assert(list@.take(si + 1).last() == list@[si as int]);
            lemma_sizes_sum_nonneg(list@.take(si as int));
        }
        let x = list[si].file_size;
        size = if size <= u64::MAX - x {
            size + x
        } else {
            u64::MAX
        };
        si += 1;
    }
    proof {
        assert(list@.take(list@.len() as int) =~= list@);
    }
    Ok(VectorStore { level, collection_name, rows, index, file_size: size })
}

/// The sum of the segments' file sizes.
pub open spec fn sizes_sum(list: Seq<VectorStore>) -> int
    decreases list.len(),
{
    if list.len() == 0 {
        0
    } else {
        sizes_sum(list.drop_last()) + list.last().file_size
    }
}

pub proof fn lemma_sizes_sum_nonneg(list: Seq<VectorStore>)
    ensures
        sizes_sum(list) >= 0,
    decreases list.len(),
{
    if list.len() > 0 {
        lemma_sizes_sum_nonneg(list.drop_last());
    }
}

proof fn lemma_stores_rows_len_bound(list: Seq<VectorStore>, i: int)
    requires
        0 <= i < list.len(),
    ensures
        stores_rows(list.take(i)).len() + list[i].rview().len() <= stores_rows(list).len(),
    decreases list.len(),
{
    if i == list.len() - 1 {
        assert(list.take(i) =~= list.drop_last());
    } else {
        lemma_stores_rows_len_bound(list.drop_last(), i);
        assert(list.drop_last().take(i) =~= list.take(i));
        assert(list.drop_last()[i] == list[i]);
    }
}

/// Length of the longest common prefix of two byte strings.
pub open spec fn cpl(a: Seq<u8>, b: Seq<u8>) -> int
    decreases a.len(),
{
    if a.len() == 0 || b.len() == 0 || a[0] != b[0] {
        0
    } else {
        1 + cpl(a.drop_first(), b.drop_first())
    }
}

proof fn lemma_cpl_char(a: Seq<u8>, b: Seq<u8>, i: int)
    requires
        0 <= i <= a.len(),
        i <= b.len(),
        forall|k: int| 0 <= k < i ==> a[k] == b[k],
        i < a.len() && i < b.len() ==> a[i] != b[i],
    ensures
        cpl(a, b) == i,
    decreases i,
{
    if i == 0 {
    } else {
        assert forall|k: int| 0 <= k < i - 1 implies a.drop_first()[k] == b.drop_first()[k] by {
            assert(a[k + 1] == b[k + 1]);
        }
        if i - 1 < a.drop_first().len() && i - 1 < b.drop_first().len() {
            assert(a.drop_first()[i - 1] == a[i] && b.drop_first()[i - 1] == b[i]);
        }
        lemma_cpl_char(a.drop_first(), b.drop_first(), i - 1);
    }
}

/// Shared prefix length of two byte strings: used by the segment term
/// dictionary to delta-compress adjacent keys.
pub fn shared_prefix_len(a: &[u8], b: &[u8]) -> (i: usize)
    ensures
        i == cpl(a@, b@),
        i <= a@.len() && i <= b@.len(),
{
    let mut i: usize = 0;
    let mut n: usize = a.len();
    if n > b.len() {
        n = b.len();
    }
    while i < n && a[i] == b[i]
        invariant
            i <= n,
            n <= a@.len() && n <= b@.len(),
            n == a@.len() || n == b@.len(),
            forall|k: int| 0 <= k < i ==> a@[k] == b@[k],
        decreases n - i,
    {
        i += 1;
    }
    proof {
        lemma_cpl_char(a@, b@, i as int);
    }
    i
}

proof fn lemma_cpl_bounds(a: Seq<u8>, b: Seq<u8>)
    ensures
        0 <= cpl(a, b) <= a.len(),
        cpl(a, b) <= b.len(),
    decreases a.len(),
{
    if a.len() > 0 && b.len() > 0 && a[0] == b[0] {
        lemma_cpl_bounds(a.drop_first(), b.drop_first());
    }
}

/// The common prefix really matches.
proof fn lemma_cpl_matches(a: Seq<u8>, b: Seq<u8>)
    ensures
        forall|i: int| 0 <= i < cpl(a, b) ==> a[i] == b[i],
    decreases a.len(),
{
    lemma_cpl_bounds(a, b);
    if a.len() > 0 && b.len() > 0 && a[0] == b[0] {
        lemma_cpl_matches(a.drop_first(), b.drop_first());
        assert forall|i: int| 0 <= i < cpl(a, b) implies a[i] == b[i] by {
            if i > 0 {
                assert(a.drop_first()[i - 1] == b.drop_first()[i - 1]);
            }
        }
    }
}

/// Splitting a byte-string equality over a concatenation.
pub proof fn lemma_bytes_split(s: Seq<u8>, pos: int, a: Seq<u8>, b: Seq<u8>)
    requires
        0 <= pos,
        pos + a.len() + b.len() <= s.len(),
        s.subrange(pos, pos + a.len() + b.len()) == a + b,
    ensures
        s.subrange(pos, pos + a.len()) == a,
        s.subrange(pos + a.len(), pos + a.len() + b.len()) == b,
{
    let al = a.len() as int;
    let bl = b.len() as int;
    assert forall|k: int| 0 <= k < al implies s.subrange(pos, pos + al)[k] == a[k] by {
        assert(s.subrange(pos, pos + al + bl)[k] == (a + b)[k]);
    }
    assert(s.subrange(pos, pos + al) =~= a);
    assert forall|k: int| 0 <= k < bl implies s.subrange(pos + al, pos + al + bl)[k] == b[k] by {
        assert(s.subrange(pos, pos + al + bl)[al + k] == (a + b)[al + k]);
    }
    assert(s.subrange(pos + al, pos + al + bl) =~= b);
}

/// The term dictionary's byte form: per entry, the shared prefix length with
/// the previous key, the suffix length, the suffix bytes, then the posting
/// offset, each number as a varint.
pub open spec fn dict_bytes(entries: Seq<(Seq<u8>, u64)>, prev: Seq<u8>) -> Seq<u8>
    decreases entries.len(),
{
    if entries.len() == 0 {
        Seq::empty()
    } else {
        let k = entries[0].0;
        let v = entries[0].1;
        let p = cpl(prev, k);
        crate::varint::vu64_of(p as nat) + crate::varint::vu64_of((k.len() - p) as nat) + k.skip(p)
            + crate::varint::vu64_of(v as nat) + dict_bytes(entries.drop_first(), k)
    }
}

pub open spec fn entries_view(keys: Seq<Vec<u8>>, vals: Seq<u64>) -> Seq<(Seq<u8>, u64)> {
    Seq::new(keys.len(), |i: int| (keys[i]@, vals[i]))
}

proof fn lemma_dict_bytes_nonempty(e: Seq<(Seq<u8>, u64)>, prev: Seq<u8>)
    requires
        e.len() > 0,
    ensures
        dict_bytes(e, prev).len() >= 3,
{
    crate::varint::lemma_vu64_len_pos(cpl(prev, e[0].0) as nat);
    crate::varint::lemma_vu64_len_pos((e[0].0.len() - cpl(prev, e[0].0)) as nat);
    crate::varint::lemma_vu64_len_pos(e[0].1 as nat);
    lemma_cpl_bounds(prev, e[0].0);
}

/// Where a dictionary with previous key `prev` encodes to `s.subrange(pos,
/// end)` and is not yet exhausted, its head entry's fields lie at `pos` in
/// order: prefix length, suffix length, suffix bytes, offset, then the rest
/// of the dictionary under the head's key.
proof fn lemma_dict_step(
    s: Seq<u8>,
    pos: int,
    end: int,
    prev: Seq<u8>,
    e: Seq<(Seq<u8>, u64)>,
)
    requires
        0 <= pos < end <= s.len(),
        dict_bytes(e, prev) == s.subrange(pos, end),
    ensures
        e.len() > 0,
        ({
            let k = e[0].0;
            let v = e[0].1;
            let p = cpl(prev, k);
            let p1 = pos + crate::varint::vu64_of(p as nat).len();
            let p2 = p1 + crate::varint::vu64_of((k.len() - p) as nat).len();
            let p3 = p2 + (k.len() - p);
            let p4 = p3 + crate::varint::vu64_of(v as nat).len();
            &&& 0 <= p <= prev.len()
            &&& p <= k.len()
            &&& crate::varint::vu64_at(s, pos, p as nat)
            &&& crate::varint::vu64_at(s, p1, (k.len() - p) as nat)
            &&& p2 + (k.len() - p) <= end
            &&& s.subrange(p2, p3) == k.skip(p)
            &&& crate::varint::vu64_at(s, p3, v as nat)
            &&& p4 <= end
            &&& dict_bytes(e.skip(1), k) == s.subrange(p4, end)
            &&& prev.take(p) == k.take(p)
        }),
{
    if e.len() == 0 {
        assert(dict_bytes(e, prev) =~= Seq::<u8>::empty());
        assert(s.subrange(pos, end).len() == end - pos);
        assert(false);
    }
    let k = e[0].0;
    let v = e[0].1;
    let p = cpl(prev, k);
    lemma_cpl_bounds(prev, k);
    lemma_cpl_matches(prev, k);
    assert(prev.take(p) =~= k.take(p));
    let wa = crate::varint::vu64_of(p as nat);
    let wb = crate::varint::vu64_of((k.len() - p) as nat);
    let suf = k.skip(p);
    let wv = crate::varint::vu64_of(v as nat);
    let rest = dict_bytes(e.drop_first(), k);
    assert(dict_bytes(e, prev) == wa + wb + suf + wv + rest);
    assert(e.skip(1) =~= e.drop_first());
    let p1 = pos + wa.len();
    let p2 = p1 + wb.len();
    let p3 = p2 + suf.len();
    let p4 = p3 + wv.len();
    assert(((wa + wb) + suf + wv + rest) =~= (wa + (wb + (suf + (wv + rest)))));
    lemma_bytes_split(s, pos, wa, wb + (suf + (wv + rest)));
    lemma_bytes_split(s, p1, wb, suf + (wv + rest));
    lemma_bytes_split(s, p2, suf, wv + rest);
    lemma_bytes_split(s, p3, wv, rest);
}

/// The term dictionary of one field: term keys added with their posting
/// offsets, then serialized with shared-prefix compression; reset between
/// fields. Callers add terms in ascending key order so prefix compression
/// bites; lookups scan and are correct in any order.
pub struct IndexBlock {
    pub keys: Vec<Vec<u8>>,
    pub vals: Vec<u64>,
    pub buf: Vec<u8>,
}

impl IndexBlock {
    pub open spec fn entries(self) -> Seq<(Seq<u8>, u64)> {
        entries_view(self.keys@, self.vals@)
    }

    pub open spec fn wf(self) -> bool {
        self.keys@.len() == self.vals@.len()
    }

    pub fn new() -> (b: IndexBlock)
        ensures
            b.wf(),
            b.entries() == Seq::<(Seq<u8>, u64)>::empty(),
            b.buf@ == Seq::<u8>::empty(),
    {
        let b = IndexBlock { keys: Vec::new(), vals: Vec::new(), buf: Vec::new() };
        proof {
            assert(b.entries() =~= Seq::<(Seq<u8>, u64)>::empty());
        }
        b
    }

    /// Records one term with its posting offset.
    #[verifier::loop_isolation(false)]
    pub fn add(&mut self, key: &[u8], val: u64) -> (r: Result<(), VBError>)
        requires
            old(self).wf(),
        ensures
            final(self).wf(),
            r is Ok,
            final(self).entries() == old(self).entries().push((key@, val)),
            final(self).buf == old(self).buf,
    {
        let mut k: Vec<u8> = Vec::new();
        let mut i: usize = 0;
        while i < key.len()
            invariant
                i <= key@.len(),
                k@ == key@.subrange(0, i as int),
            decreases key@.len() - i,
        {
            k.push(key[i]);
            i += 1;
        }
        proof {
            assert(k@ =~= key@);
        }
        self.keys.push(k);
        self.vals.push(val);
        proof {
            assert(self.entries() =~= old(self).entries().push((key@, val)));
        }
        Ok(())
    }

    /// Serializes the recorded entries into the block buffer with
    /// shared-prefix compression.
    #[verifier::loop_isolation(false)]
    #[verifier::rlimit(50)]
    pub fn finish(&mut self) -> (r: Result<(), VBError>)
        requires
            old(self).wf(),
        ensures
            final(self).wf(),
            r is Ok,
            final(self).buf@ == dict_bytes(old(self).entries(), Seq::empty()),
            final(self).entries() == old(self).entries(),
    {
        let ghost all = self.entries();
        self.buf = Vec::new();
        let mut prev: Vec<u8> = Vec::new();
        let n = self.keys.len();
        let mut i: usize = 0;
        proof {
            assert(all.skip(0) =~= all);
            assert(self.buf@ =~= Seq::<u8>::empty());
            assert(dict_bytes(all, Seq::empty()) =~= Seq::<u8>::empty() + dict_bytes(
                all.skip(0),
                prev@,
            ));
        }
        while i < n
            invariant
                i <= n,
                self.keys@.len() == n,
                self.vals@.len() == n,
                self.entries() == all,
                dict_bytes(all, Seq::empty()) == self.buf@ + dict_bytes(
                    all.skip(i as int),
                    prev@,
                ),
                i > 0 ==> prev@ == all[i - 1].0,
                i == 0 ==> prev@ == Seq::<u8>::empty(),
            decreases n - i,
        {
            let key = &self.keys[i];
            let p = shared_prefix_len(prev.as_slice(), key.as_slice());
            let ghost pre_buf = self.buf@;
            let _ = crate::varint::write_vu64(&mut self.buf, p as u64);
            let _ = crate::varint::write_vu64(&mut self.buf, (key.len() - p) as u64);
            let mut t: usize = p;
            let ghost mid = self.buf@;
            while t < key.len()
                invariant
                    p <= t <= key@.len(),
                    self.keys@.len() == n,
                    i < n,
                    key == &self.keys@[i as int],
                    self.buf@ == mid + key@.subrange(p as int, t as int),
                    self.vals@.len() == n,
                    self.entries() == all,
                decreases key@.len() - t,
            {
                self.buf.push(key[t]);
                proof {
                    assert(self.buf@ =~= mid + key@.subrange(p as int, t + 1));
                }
                t += 1;
            }
            let _ = crate::varint::write_vu64(&mut self.buf, self.vals[i]);
            proof {
                assert(all.skip(i as int)[0] == all[i as int]);
                assert(all[i as int].0 == key@ && all[i as int].1 == self.vals@[i as int]);
                assert(key@.subrange(p as int, key@.len() as int) =~= key@.skip(p as int));
                assert(self.buf@ =~= pre_buf + (crate::varint::vu64_of(p as nat)
                    + crate::varint::vu64_of((key@.len() - p) as nat) + key@.skip(p as int)
                    + crate::varint::vu64_of(self.vals@[i as int] as nat)));
                assert(all.skip(i as int).drop_first() =~= all.skip(i + 1));
                assert(dict_bytes(all.skip(i as int), prev@) == crate::varint::vu64_of(p as nat)
                    + crate::varint::vu64_of((key@.len() - p) as nat) + key@.skip(p as int)
                    + crate::varint::vu64_of(self.vals@[i as int] as nat) + dict_bytes(
                    all.skip(i + 1),
                    key@,
                ));
            }
            let mut newprev: Vec<u8> = Vec::new();
            let mut w: usize = 0;
            while w < key.len()
                invariant
                    w <= key@.len(),
                    i < n,
                    self.keys@.len() == n,
                    self.vals@.len() == n,
                    key == &self.keys@[i as int],
                    newprev@ == key@.subrange(0, w as int),
                    self.entries() == all,
                decreases key@.len() - w,
            {
                newprev.push(key[w]);
                w += 1;
            }
            proof {
                assert(newprev@ =~= key@);
            }
            prev = newprev;
            i += 1;
        }
        proof {
            assert(all.skip(n as int) =~= Seq::<(Seq<u8>, u64)>::empty());
            assert(dict_bytes(Seq::<(Seq<u8>, u64)>::empty(), prev@) =~= Seq::<u8>::empty());
            assert(self.buf@ =~= dict_bytes(all, Seq::empty()));
        }
        Ok(())
    }

    /// Clears the dictionary for the next field.
    pub fn reset(&mut self)
        ensures
            final(self).wf(),
            final(self).entries() == Seq::<(Seq<u8>, u64)>::empty(),
            final(self).buf@ == Seq::<u8>::empty(),
    {
        self.keys = Vec::new();
        self.vals = Vec::new();
        self.buf = Vec::new();
        proof {
            assert(self.entries() =~= Seq::<(Seq<u8>, u64)>::empty());
        }
    }
}

/// A plain data block: an append-only byte buffer reused between flushes.
pub struct DataBlock {
    pub buf: Vec<u8>,
}

impl DataBlock {
    pub fn new() -> (b: DataBlock)
        ensures
            b.buf@ == Seq::<u8>::empty(),
    {
        DataBlock { buf: Vec::new() }
    }

    pub fn reset(&mut self)
        ensures
            final(self).buf@ == Seq::<u8>::empty(),
    {
        self.buf.clear();
    }

    /// Appends the bytes.
    #[verifier::loop_isolation(false)]
    pub fn write(&mut self, key: &[u8]) -> (r: Result<(), VBError>)
        ensures
            r is Ok,
            final(self).buf@ == old(self).buf@ + key@,
    {
        let ghost pre = self.buf@;
        let mut i: usize = 0;
        while i < key.len()
            invariant
                i <= key@.len(),
                self.buf@ == pre + key@.subrange(0, i as int),
            decreases key@.len() - i,
        {
            self.buf.push(key[i]);
            proof {
                assert(self.buf@ =~= pre + key@.subrange(0, i + 1));
            }
            i += 1;
        }
        proof {
            assert(self.buf@ =~= pre + key@);
        }
        Ok(())
    }
}

/// One term of one field with its inverted-list posting bytes.
pub struct TermPosting {
    pub key: Vec<u8>,
    pub posting: Vec<u8>,
}

/// One field's term postings, in flush order.
pub struct FieldPostings {
    pub terms: Vec<TermPosting>,
}

pub open spec fn terms_view(terms: Seq<TermPosting>) -> Seq<(Seq<u8>, Seq<u8>)> {
    Seq::new(terms.len(), |i: int| (terms[i].key@, terms[i].posting@))
}

/// One length-prefixed posting block.
pub open spec fn posting_block(p: Seq<u8>) -> Seq<u8> {
    crate::varint::vu64_of(p.len() as nat) + p
}

/// A field's posting blocks, in term order.
pub open spec fn postings_bytes(terms: Seq<(Seq<u8>, Seq<u8>)>) -> Seq<u8>
    decreases terms.len(),
{
    if terms.len() == 0 {
        Seq::empty()
    } else {
        posting_block(terms[0].1) + postings_bytes(terms.drop_first())
    }
}

/// The dictionary entries a field's flush produces: each term mapped to its
/// posting block's offset.
pub open spec fn dict_entries_of(terms: Seq<(Seq<u8>, Seq<u8>)>, base: int) -> Seq<(Seq<u8>, u64)>
    decreases terms.len(),
{
    if terms.len() == 0 {
        Seq::empty()
    } else {
        seq![(terms[0].0, base as u64)] + dict_entries_of(
            terms.drop_first(),
            base + posting_block(terms[0].1).len(),
        )
    }
}

/// One field's bytes: its posting blocks, then its term dictionary.
pub open spec fn field_bytes(terms: Seq<(Seq<u8>, Seq<u8>)>, base: int) -> Seq<u8> {
    postings_bytes(terms) + dict_bytes(dict_entries_of(terms, base), Seq::empty())
}

pub open spec fn fields_view(fields: Seq<FieldPostings>) -> Seq<Seq<(Seq<u8>, Seq<u8>)>> {
    Seq::new(fields.len(), |i: int| terms_view(fields[i].terms@))
}

/// A whole flush: each field's bytes in order, posting offsets measured from
/// the segment's write position.
pub open spec fn fields_bytes(fields: Seq<Seq<(Seq<u8>, Seq<u8>)>>, base: int) -> Seq<u8>
    decreases fields.len(),
{
    if fields.len() == 0 {
        Seq::empty()
    } else {
        field_bytes(fields[0], base) + fields_bytes(
            fields.drop_first(),
            base + field_bytes(fields[0], base).len(),
        )
    }
}

/// The segment writer: the bytes written so far, the write position (the
/// given start offset plus the bytes written), the term dictionary being
/// built for the current field, and where each finished field's dictionary
/// starts.
pub struct DiskStoreWriter {
    pub offset: usize,
    pub start: usize,
    pub buf: Vec<u8>,
    pub index_block: IndexBlock,
    pub field_offset: Vec<usize>,
}

impl DiskStoreWriter {
    pub open spec fn wf(self) -> bool {
        &&& self.offset == self.start + self.buf@.len()
        &&& self.index_block.wf()
    }

    /// A writer positioned at `offset` into the segment file.
    pub fn with_offset(offset: usize) -> (w: DiskStoreWriter)
        ensures
            w.wf(),
            w.offset == offset,
            w.start == offset,
            w.buf@ == Seq::<u8>::empty(),
            w.index_block.entries() == Seq::<(Seq<u8>, u64)>::empty(),
    {
        DiskStoreWriter {
            offset,
            start: offset,
            buf: Vec::new(),
            index_block: IndexBlock::new(),
            field_offset: Vec::new(),
        }
    }

    /// Writes one length-prefixed posting block and returns its offset.
    pub fn write_posting(&mut self, b: &[u8]) -> (r: Result<usize, VBError>)
        requires
            old(self).wf(),
            old(self).offset + 10 + b@.len() < usize::MAX,
        ensures
            final(self).wf(),
            r == Ok::<usize, VBError>(old(self).offset),
            final(self).buf@ == old(self).buf@ + posting_block(b@),
            final(self).offset == old(self).offset + posting_block(b@).len(),
            final(self).index_block == old(self).index_block,
            final(self).start == old(self).start,
            final(self).field_offset == old(self).field_offset,
    {
        let off = self.offset;
        let n = crate::varint::write_vu64(&mut self.buf, b.len() as u64);
        let ghost mid = self.buf@;
        let mut i: usize = 0;
        while i < b.len()
            invariant
                i <= b@.len(),
                self.buf@ == mid + b@.subrange(0, i as int),
                self.offset == old(self).offset,
                self.start == old(self).start,
                self.index_block == old(self).index_block,
                self.field_offset == old(self).field_offset,
            decreases b@.len() - i,
        {
            self.buf.push(b[i]);
            proof {
                assert(self.buf@ =~= mid + b@.subrange(0, i + 1));
            }
            i += 1;
        }
        proof {
            assert(self.buf@ =~= old(self).buf@ + posting_block(b@));
            crate::varint::lemma_vu64_len(b@.len() as nat);
        }
        self.offset = self.start + self.buf.len();
        Ok(off)
    }

    /// Records one term with its posting offset in the current field's
    /// dictionary.
    pub fn add_term(&mut self, key: &[u8], offset: usize) -> (r: Result<(), VBError>)
        requires
            old(self).wf(),
        ensures
            final(self).wf(),
            r is Ok,
            final(self).index_block.entries() == old(self).index_block.entries().push(
                (key@, offset as u64),
            ),
            final(self).buf == old(self).buf,
            final(self).offset == old(self).offset,
            final(self).start == old(self).start,
            final(self).field_offset == old(self).field_offset,
    {
        let _ = self.index_block.add(key, offset as u64);
        Ok(())
    }

    /// Serializes the current field's dictionary into the segment, records
    /// where it starts, and resets the dictionary for the next field.
    pub fn finish_field(&mut self) -> (r: Result<(), VBError>)
        requires
            old(self).wf(),
            old(self).offset + dict_bytes(old(self).index_block.entries(), Seq::empty()).len()
                < usize::MAX,
        ensures
            final(self).wf(),
            r is Ok,
            final(self).buf@ == old(self).buf@ + dict_bytes(
                old(self).index_block.entries(),
                Seq::empty(),
            ),
            final(self).offset == old(self).offset + dict_bytes(
                old(self).index_block.entries(),
                Seq::empty(),
            ).len(),
            final(self).index_block.entries() == Seq::<(Seq<u8>, u64)>::empty(),
            final(self).field_offset@ == old(self).field_offset@.push(old(self).offset),
            final(self).start == old(self).start,
    {
        self.field_offset.push(self.offset);
        let _ = self.index_block.finish();
        let ghost pre = self.buf@;
        let mut t: usize = 0;
        let n = self.index_block.buf.len();
        while t < n
            invariant
                t <= n,
                self.index_block.buf@.len() == n,
                self.buf@ == pre + self.index_block.buf@.subrange(0, t as int),
                self.index_block.entries() == old(self).index_block.entries(),
                self.index_block.wf(),
                self.index_block.buf@ == dict_bytes(old(self).index_block.entries(), Seq::empty()),
                self.start == old(self).start,
                self.offset == old(self).offset,
                self.field_offset@ == old(self).field_offset@.push(old(self).offset),
            decreases n - t,
        {
            let byte = self.index_block.buf[t];
            self.buf.push(byte);
            proof {
                assert(self.buf@ =~= pre + self.index_block.buf@.subrange(0, t + 1));
            }
            t += 1;
        }
        proof {
            assert(self.index_block.buf@.subrange(0, n as int) =~= self.index_block.buf@);
        }
        self.index_block.reset();
        self.offset = self.start + self.buf.len();
        Ok(())
    }

    /// Appends raw bytes (the document-offset table, the vector-index
    /// snapshot, the footer).
    pub fn write(&mut self, b: &[u8]) -> (r: Result<usize, VBError>)
        requires
            old(self).wf(),
            old(self).offset + b@.len() < usize::MAX,
        ensures
            final(self).wf(),
            r == Ok::<usize, VBError>(b@.len() as usize),
            final(self).buf@ == old(self).buf@ + b@,
            final(self).offset == old(self).offset + b@.len(),
            final(self).index_block == old(self).index_block,
            final(self).start == old(self).start,
    {
        let ghost pre = self.buf@;
        let mut i: usize = 0;
        while i < b.len()
            invariant
                i <= b@.len(),
                self.buf@ == pre + b@.subrange(0, i as int),
                self.offset == old(self).offset,
                self.start == old(self).start,
                self.index_block == old(self).index_block,
                self.field_offset == old(self).field_offset,
            decreases b@.len() - i,
        {
            self.buf.push(b[i]);
            proof {
                assert(self.buf@ =~= pre + b@.subrange(0, i + 1));
            }
            i += 1;
        }
        proof {
            assert(self.buf@ =~= pre + b@);
        }
        self.offset = self.start + self.buf.len();
        Ok(b.len())
    }

    /// The writer holds no hidden buffer: flushing changes nothing.
    pub fn flush(&mut self) -> (r: Result<(), VBError>)
        ensures
            r is Ok,
            *final(self) == *old(self),
    {
        Ok(())
    }
}

/// Flushes an index snapshot: for each field, every term's posting block,
/// then the field's term dictionary, offsets measured from `offset`.
#[verifier::loop_isolation(false)]
pub fn flush_disk(reader: &crate::IndexReader, offset: usize) -> (r: Result<
    DiskStoreWriter,
    VBError,
>)
    requires
        offset + 3 * fields_bytes(fields_view(reader.fields@), offset as int).len() + 64
            < usize::MAX,
    ensures
        r is Ok,
        match r {
            Ok(w) => {
                &&& w.wf()
                &&& w.buf@ == fields_bytes(fields_view(reader.fields@), offset as int)
                &&& w.start == offset
            },
            Err(_) => false,
        },
{
    let mut w = DiskStoreWriter::with_offset(offset);
    let ghost fv = fields_view(reader.fields@);
    let ghost total = fields_bytes(fv, offset as int);
    let nf = reader.fields.len();
    let mut f: usize = 0;
    proof {
        assert(fv.skip(0) =~= fv);
        assert(total =~= w.buf@ + fields_bytes(fv.skip(0), w.offset as int));
    }
    while f < nf
        invariant
            f <= nf,
            w.wf(),
            w.start == offset,
            w.index_block.entries() == Seq::<(Seq<u8>, u64)>::empty(),
            total == w.buf@ + fields_bytes(fv.skip(f as int), w.offset as int),
        decreases nf - f,
    {
        let field = &reader.fields[f];
        let ghost tv = terms_view(field.terms@);
        let ghost field_base = w.offset as int;
        let ghost pre_field_buf = w.buf@;
        proof {
            assert(fv.skip(f as int)[0] == fv[f as int]);
            assert(fv[f as int] == tv);
            assert(fv.skip(f as int).drop_first() =~= fv.skip(f + 1));
        }
        let nt = field.terms.len();
        let mut t: usize = 0;
        while t < nt
            invariant
                t <= nt,
                w.wf(),
                w.start == offset,
                field == &reader.fields@[f as int],
                w.buf@ == pre_field_buf + postings_bytes(tv.take(t as int)),
                w.index_block.entries() == dict_entries_of(tv, field_base).take(t as int),
                total == pre_field_buf + fields_bytes(fv.skip(f as int), field_base),
                w.offset == field_base + postings_bytes(tv.take(t as int)).len(),
            decreases nt - t,
        {
            proof {
                lemma_postings_take(tv, t as int);
                lemma_dict_entries_take(tv, field_base, t as int);
                lemma_postings_len_mono(tv, t as int);
                lemma_postings_len_mono(tv, t + 1);
                assert(pre_field_buf.len() <= total.len());
                assert(postings_bytes(tv).len() <= field_bytes(tv, field_base).len());
                assert(field_bytes(tv, field_base).len() <= fields_bytes(
                    fv.skip(f as int),
                    field_base,
                ).len()) by {
                    assert(fields_bytes(fv.skip(f as int), field_base) == field_bytes(
                        tv,
                        field_base,
                    ) + fields_bytes(fv.skip(f + 1), field_base + field_bytes(
                        tv,
                        field_base,
                    ).len()));
                }
                assert(fields_bytes(fv.skip(f as int), field_base).len() + pre_field_buf.len()
                    == total.len());
            }
            let off = match w.write_posting(field.terms[t].posting.as_slice()) {
                Ok(o) => o,
                Err(_) => {
                    proof {
                        assert(false);
                    }
                    return Err(VBError::EOF);
                },
            };
            let _ = w.add_term(field.terms[t].key.as_slice(), off);
            proof {
                assert(w.buf@ =~= pre_field_buf + postings_bytes(tv.take(t + 1)));
                assert(w.index_block.entries() =~= dict_entries_of(tv, field_base).take(t + 1));
            }
            t += 1;
        }
        proof {
            assert(tv.take(nt as int) =~= tv);
            lemma_dict_entries_len(tv, field_base);
            assert(dict_entries_of(tv, field_base).take(nt as int) =~= dict_entries_of(
                tv,
                field_base,
            ));
            assert(field_bytes(tv, field_base) == postings_bytes(tv) + dict_bytes(
                dict_entries_of(tv, field_base),
                Seq::empty(),
            ));
            assert(pre_field_buf.len() <= total.len());
            assert(fields_bytes(fv.skip(f as int), field_base) == field_bytes(tv, field_base)
                + fields_bytes(fv.skip(f + 1), field_base + field_bytes(tv, field_base).len()));
            assert(fields_bytes(fv.skip(f as int), field_base).len() + pre_field_buf.len()
                == total.len());
        }
        let _ = w.finish_field();
        proof {
            assert(w.buf@ =~= pre_field_buf + field_bytes(tv, field_base));
            assert(total =~= w.buf@ + fields_bytes(fv.skip(f + 1), w.offset as int));
        }
        f += 1;
    }
    proof {
        assert(fv.skip(nf as int) =~= Seq::<Seq<(Seq<u8>, Seq<u8>)>>::empty());
        assert(w.buf@ =~= total);
    }
    Ok(w)
}

proof fn lemma_postings_take(tv: Seq<(Seq<u8>, Seq<u8>)>, t: int)
    requires
        0 <= t < tv.len(),
    ensures
        postings_bytes(tv.take(t + 1)) == postings_bytes(tv.take(t)) + posting_block(tv[t].1),
    decreases t,
{
    if t == 0 {
        assert(tv.take(1).drop_first() =~= Seq::<(Seq<u8>, Seq<u8>)>::empty());
        assert(tv.take(1)[0] == tv[0]);
        assert(tv.take(0) =~= Seq::<(Seq<u8>, Seq<u8>)>::empty());
        assert(postings_bytes(tv.take(1)) =~= posting_block(tv[0].1));
        assert(postings_bytes(tv.take(0)) + posting_block(tv[0].1) =~= posting_block(tv[0].1));
    } else {
        lemma_postings_take(tv.drop_first(), t - 1);
        assert(tv.take(t + 1).drop_first() =~= tv.drop_first().take(t));
        assert(tv.take(t).drop_first() =~= tv.drop_first().take(t - 1));
        assert(tv.take(t + 1)[0] == tv[0]);
        assert(tv.take(t)[0] == tv[0]);
        assert(tv.drop_first()[t - 1] == tv[t]);
        assert(postings_bytes(tv.take(t + 1)) =~= postings_bytes(tv.take(t)) + posting_block(
            tv[t].1,
        ));
    }
}

proof fn lemma_dict_entries_take(tv: Seq<(Seq<u8>, Seq<u8>)>, base: int, t: int)
    requires
        0 <= t < tv.len(),
    ensures
        dict_entries_of(tv, base).take(t + 1) == dict_entries_of(tv, base).take(t).push(
            (tv[t].0, (base + postings_bytes(tv.take(t)).len()) as u64),
        ),
        dict_entries_of(tv, base).len() == tv.len(),
    decreases t,
{
    lemma_dict_entries_len(tv, base);
    lemma_dict_entries_index(tv, base, t);
    assert(dict_entries_of(tv, base).take(t + 1) =~= dict_entries_of(tv, base).take(t).push(
        dict_entries_of(tv, base)[t],
    ));
}

proof fn lemma_dict_entries_len(tv: Seq<(Seq<u8>, Seq<u8>)>, base: int)
    ensures
        dict_entries_of(tv, base).len() == tv.len(),
    decreases tv.len(),
{
    if tv.len() > 0 {
        lemma_dict_entries_len(tv.drop_first(), base + posting_block(tv[0].1).len());
    }
}

proof fn lemma_dict_entries_index(tv: Seq<(Seq<u8>, Seq<u8>)>, base: int, t: int)
    requires
        0 <= t < tv.len(),
    ensures
        dict_entries_of(tv, base)[t] == (tv[t].0, (base + postings_bytes(tv.take(t)).len()) as u64),
    decreases t,
{
    lemma_dict_entries_len(tv, base);
    if t == 0 {
        assert(tv.take(0) =~= Seq::<(Seq<u8>, Seq<u8>)>::empty());
    } else {
        lemma_dict_entries_index(tv.drop_first(), base + posting_block(tv[0].1).len(), t - 1);
        lemma_dict_entries_len(tv.drop_first(), base + posting_block(tv[0].1).len());
        assert(tv.drop_first()[t - 1] == tv[t]);
        assert(tv.drop_first().take(t - 1) =~= tv.take(t).drop_first());
        assert(tv.take(t)[0] == tv[0]);
        assert(postings_bytes(tv.take(t)) == posting_block(tv[0].1) + postings_bytes(
            tv.take(t).drop_first(),
        ));
    }
}

/// Prefixes of the posting stream never outgrow it.
proof fn lemma_postings_len_mono(tv: Seq<(Seq<u8>, Seq<u8>)>, t: int)
    requires
        0 <= t <= tv.len(),
    ensures
        postings_bytes(tv.take(t)).len() <= postings_bytes(tv).len(),
    decreases tv.len() - t,
{
    if t == tv.len() {
        assert(tv.take(t) =~= tv);
    } else {
        lemma_postings_take(tv, t);
        lemma_postings_len_mono(tv, t + 1);
    }
}

/// Magic tag of a segment footer.
pub const SEGMENT_MAGIC: u64 = 0x4256;

/// Segment format version tag.
pub const SEGMENT_VERSION: u64 = 1;

/// The segment trailer: magic and version tags, the segment's level and
/// size, and where its blocks lie — postings and dictionaries, the
/// document-offset table, and the vector-index snapshot.
pub struct Footer {
    pub magic: u64,
    pub version: u64,
    pub level: u64,
    pub file_size: u64,
    pub fields_off: u64,
    pub fields_len: u64,
    pub doc_table_off: u64,
    pub doc_table_len: u64,
    pub index_off: u64,
    pub index_len: u64,
}

pub open spec fn footer_words(f: Footer) -> Seq<u64> {
    seq![
        f.magic,
        f.version,
        f.level,
        f.file_size,
        f.fields_off,
        f.fields_len,
        f.doc_table_off,
        f.doc_table_len,
        f.index_off,
        f.index_len,
    ]
}

/// The footer's byte form: ten little-endian words.
pub open spec fn footer_bytes(f: Footer) -> Seq<u8> {
    crate::codec::bytes_of_words(footer_words(f))
}

/// Serializes a footer; always 80 bytes, so a reader finds it at the
/// segment's end.
#[verifier::loop_isolation(false)]
pub fn encode_footer(f: &Footer) -> (r: Vec<u8>)
    ensures
        r@ == footer_bytes(*f),
        r@.len() == 80,
{
    let mut ws: Vec<u64> = Vec::new();
    ws.push(f.magic);
    ws.push(f.version);
    ws.push(f.level);
    ws.push(f.file_size);
    ws.push(f.fields_off);
    ws.push(f.fields_len);
    ws.push(f.doc_table_off);
    ws.push(f.doc_table_len);
    ws.push(f.index_off);
    ws.push(f.index_len);
    proof {
        assert(ws@ =~= footer_words(*f));
    }
    words_to_bytes(&ws)
}

/// Reads a footer back. Succeeds exactly on eighty bytes carrying the magic
/// and version tags; the decoded footer re-encodes to the very bytes read.
pub fn decode_footer(b: &[u8]) -> (r: Result<Footer, VBError>)
    ensures
        match r {
            Ok(f) => footer_bytes(f) == b@ && f.magic == SEGMENT_MAGIC && f.version
                == SEGMENT_VERSION,
            Err(_) => !(exists|f: Footer|
                footer_bytes(f) == b@ && f.magic == SEGMENT_MAGIC && (#[trigger] f.version)
                    == SEGMENT_VERSION),
        },
{
    let ws = match bytes_to_words(b) {
        Some(ws) => ws,
        None => {
            proof {
                lemma_footer_len();
            }
            return Err(VBError::CorruptIndex);
        },
    };
    if ws.len() != 10 {
        proof {
            assert forall|g: Footer|
                !(footer_bytes(g) == b@ && g.magic == SEGMENT_MAGIC && (#[trigger] g.version)
                    == SEGMENT_VERSION) by {
                if footer_bytes(g) == b@ {
                    crate::codec::lemma_words_of_bytes_inverse(footer_words(g), b@);
                }
            }
        }
        return Err(VBError::CorruptIndex);
    }
    let f = Footer {
        magic: ws[0],
        version: ws[1],
        level: ws[2],
        file_size: ws[3],
        fields_off: ws[4],
        fields_len: ws[5],
        doc_table_off: ws[6],
        doc_table_len: ws[7],
        index_off: ws[8],
        index_len: ws[9],
    };
    if f.magic != SEGMENT_MAGIC || f.version != SEGMENT_VERSION {
        proof {
            assert forall|g: Footer|
                !(footer_bytes(g) == b@ && g.magic == SEGMENT_MAGIC && (#[trigger] g.version)
                    == SEGMENT_VERSION) by {
                if footer_bytes(g) == b@ {
                    crate::codec::lemma_words_of_bytes_inverse(footer_words(g), b@);
                    assert(footer_words(g) == ws@);
                    assert(g.magic == ws@[0] && g.version == ws@[1]);
                }
            }
        }
        return Err(VBError::CorruptIndex);
    }
    proof {
        assert(footer_words(f) =~= ws@);
        crate::codec::lemma_bytes_of_words_of(b@, ws@);
    }
    Ok(f)
}

proof fn lemma_footer_len()
    ensures
        forall|g: Footer| (#[trigger] footer_bytes(g)).len() == 80,
{
    assert forall|g: Footer| (#[trigger] footer_bytes(g)).len() == 80 by {
        crate::codec::lemma_words_of_bytes_len(footer_words(g));
    }
}

/// The document-offset table: per document, its id and the byte offset of
/// its payload, as little-endian words behind a count.
pub open spec fn doc_table_words(entries: Seq<(u64, u64)>) -> Seq<u64> {
    seq![entries.len() as u64] + crate::codec::blocks(
        entries,
        |p: (u64, u64)| seq![p.0, p.1],
    )
}

pub open spec fn doc_table_bytes(entries: Seq<(u64, u64)>) -> Seq<u8> {
    crate::codec::bytes_of_words(doc_table_words(entries))
}

/// Serializes a document-offset table.
#[verifier::loop_isolation(false)]
pub fn encode_doc_table(entries: &Vec<(u64, u64)>) -> (r: Vec<u8>)
    requires
        entries@.len() <= 0xffffffff,
    ensures
        r@ == doc_table_bytes(entries@),
{
    let mut ws: Vec<u64> = Vec::new();
    ws.push(entries.len() as u64);
    let ghost hdr = ws@;
    proof {
        assert(entries@.take(0) =~= Seq::<(u64, u64)>::empty());
        assert(ws@ =~= hdr + crate::codec::blocks(
            entries@.take(0),
            |p: (u64, u64)| seq![p.0, p.1],
        ));
    }
    let n = entries.len();
    let mut i: usize = 0;
    while i < n
        invariant
            i <= n,
            ws@ == hdr + crate::codec::blocks(
                entries@.take(i as int),
                |p: (u64, u64)| seq![p.0, p.1],
            ),
        decreases n - i,
    {
        ws.push(entries[i].0);
        ws.push(entries[i].1);
        proof {
            crate::codec::lemma_blocks_take_snoc(
                entries@,
                |p: (u64, u64)| seq![p.0, p.1],
                i as int,
            );
            assert(ws@ =~= hdr + crate::codec::blocks(
                entries@.take(i + 1),
                |p: (u64, u64)| seq![p.0, p.1],
            ));
        }
        i += 1;
    }
    proof {
        assert(entries@.take(n as int) =~= entries@);
    }
    words_to_bytes(&ws)
}

/// Reads a document-offset table back. Succeeds exactly on the byte strings
/// `encode_doc_table` produces: the decoded entries re-encode to the very
/// bytes read, and an error means no table encodes to them.
#[verifier::loop_isolation(false)]
pub fn decode_doc_table(b: &[u8]) -> (r: Result<Vec<(u64, u64)>, VBError>)
    ensures
        match r {
            Ok(e) => doc_table_bytes(e@) == b@,
            Err(_) => !(exists|e: Seq<(u64, u64)>|
                (#[trigger] doc_table_bytes(e)) == b@ && e.len() <= 0xffffffff),
        },
{
    let ws = match bytes_to_words(b) {
        Some(ws) => ws,
        None => {
            proof {
                assert forall|e: Seq<(u64, u64)>|
                    !((#[trigger] doc_table_bytes(e)) == b@ && e.len() <= 0xffffffff) by {
                    if doc_table_bytes(e) == b@ {
                        crate::codec::lemma_words_of_bytes_inverse(doc_table_words(e), b@);
                    }
                }
            }
            return Err(VBError::CorruptIndex);
        },
    };
    if ws.len() == 0 {
        proof {
            assert forall|e: Seq<(u64, u64)>|
                !((#[trigger] doc_table_bytes(e)) == b@ && e.len() <= 0xffffffff) by {
                if doc_table_bytes(e) == b@ {
                    crate::codec::lemma_words_of_bytes_inverse(doc_table_words(e), b@);
                    lemma_pair_blocks_len(e);
                }
            }
        }
        return Err(VBError::CorruptIndex);
    }
    let cnt = ws[0];
    if cnt > 0xffffffff || (cnt as usize) != (ws.len() - 1) / 2 || (ws.len() - 1) % 2 != 0 {
        proof {
            assert forall|e: Seq<(u64, u64)>|
                !((#[trigger] doc_table_bytes(e)) == b@ && e.len() <= 0xffffffff) by {
                if doc_table_bytes(e) == b@ && e.len() <= 0xffffffff {
                    crate::codec::lemma_words_of_bytes_inverse(doc_table_words(e), b@);
                    lemma_pair_blocks_len(e);
                    assert(ws@[0] == doc_table_words(e)[0]);
                    assert(ws@.len() == 1 + 2 * e.len());
                }
            }
        }
        return Err(VBError::CorruptIndex);
    }
    let n = cnt as usize;
    let mut entries: Vec<(u64, u64)> = Vec::new();
    let mut i: usize = 0;
    proof {
        assert(entries@.take(0) =~= Seq::<(u64, u64)>::empty());
    }
    while i < n
        invariant
            i <= n,
            ws@.len() == 1 + 2 * n,
            entries@.len() == i,
            forall|t: int|
                0 <= t < i ==> #[trigger] entries@[t] == (ws@[1 + 2 * t], ws@[2 + 2 * t]),
        decreases n - i,
    {
        entries.push((ws[1 + 2 * i], ws[2 + 2 * i]));
        i += 1;
    }
    proof {
        lemma_pair_blocks_len(entries@);
        assert(doc_table_words(entries@) =~= ws@) by {
            assert forall|w: int| 0 <= w < ws@.len() implies doc_table_words(entries@)[w]
                == ws@[w] by {
                if w == 0 {
                } else {
                    let t = (w - 1) / 2;
                    lemma_pair_blocks_index(entries@, t);
                    assert(w == 1 + 2 * t || w == 2 + 2 * t);
                }
            }
        }
        crate::codec::lemma_bytes_of_words_of(b@, ws@);
    }
    Ok(entries)
}

proof fn lemma_pair_blocks_len(entries: Seq<(u64, u64)>)
    ensures
        crate::codec::blocks(entries, |p: (u64, u64)| seq![p.0, p.1]).len() == 2 * entries.len(),
        doc_table_words(entries).len() == 1 + 2 * entries.len(),
    decreases entries.len(),
{
    if entries.len() > 0 {
        lemma_pair_blocks_len(entries.drop_first());
    }
}

proof fn lemma_pair_blocks_index(entries: Seq<(u64, u64)>, t: int)
    requires
        0 <= t < entries.len(),
    ensures
        doc_table_words(entries)[1 + 2 * t] == entries[t].0,
        doc_table_words(entries)[2 + 2 * t] == entries[t].1,
    decreases t,
{
    lemma_pair_blocks_len(entries);
    lemma_pair_blocks_len(entries.drop_first());
    if t == 0 {
    } else {
        lemma_pair_blocks_index(entries.drop_first(), t - 1);
        assert(entries.drop_first()[t - 1] == entries[t]);
        assert(doc_table_words(entries.drop_first())[1 + 2 * (t - 1)] == entries[t].0);
        assert(doc_table_words(entries.drop_first())[2 + 2 * (t - 1)] == entries[t].1);
    }
}

/// Words laid out as bytes, little-endian.
#[verifier::loop_isolation(false)]
fn words_to_bytes(ws: &Vec<u64>) -> (r: Vec<u8>)
    ensures
        r@ == crate::codec::bytes_of_words(ws@),
        r@.len() == 8 * ws@.len(),
{
    let mut out: Vec<u8> = Vec::new();
    let n = ws.len();
    let mut t: usize = 0;
    while t < n
        invariant
            t <= n,
            out@ == crate::codec::bytes_of_words(ws@.take(t as int)),
            out@.len() == 8 * t,
        decreases n - t,
    {
        let mut b = vstd::bytes::u64_to_le_bytes(ws[t]);
        out.append(&mut b);
        proof {
            assert(ws@.take(t + 1).drop_last() =~= ws@.take(t as int));
            assert(ws@.take(t + 1).last() == ws@[t as int]);
        }
        t += 1;
    }
    proof {
        assert(ws@.take(n as int) =~= ws@);
    }
    out
}

/// Bytes read back as words, or nothing when they are not a whole number of
/// words.
#[verifier::loop_isolation(false)]
fn bytes_to_words(b: &[u8]) -> (r: Option<Vec<u64>>)
    ensures
        match r {
            Some(ws) => ws@ == crate::codec::words_of(b@) && b@.len() == 8 * ws@.len(),
            None => b@.len() % 8 != 0,
        },
{
    if b.len() % 8 != 0 {
        return None;
    }
    let wn = b.len() / 8;
    proof {
        assert(b@.len() == 8 * wn) by (nonlinear_arith)
            requires
                wn == b@.len() / 8,
                b@.len() % 8 == 0,
        ;
    }
    let mut ws: Vec<u64> = Vec::new();
    let mut i: usize = 0;
    while i < wn
        invariant
            ws@.len() == i <= wn,
            b@.len() == 8 * wn,
            forall|k: int| 0 <= k < i ==> ws@[k] == crate::codec::words_of(b@)[k],
        decreases wn - i,
    {
        let s = slice_subrange(b, 8 * i, 8 * i + 8);
        ws.push(vstd::bytes::u64_from_le_bytes(s));
        i += 1;
    }
    proof {
        assert(ws@ =~= crate::codec::words_of(b@));
    }
    Some(ws)
}

/// A term of one field, as a query names it.
pub struct Term {
    pub field_id: u32,
    pub bytes: Vec<u8>,
}

/// A memory-mapped segment's reader face: the raw bytes and, per field, the
/// byte range of that field's term dictionary. The surrounding program maps
/// the file and hands the bytes in.
pub struct DiskStoreReader {
    pub fields: Vec<(usize, usize)>,
    pub bytes: Vec<u8>,
}

/// One field's term dictionary, decoded: term keys with their posting
/// offsets.
pub struct DiskFieldReader {
    pub entries: Vec<(Vec<u8>, u64)>,
}

/// First posting offset recorded under a key.
pub open spec fn dict_lookup(entries: Seq<(Seq<u8>, u64)>, key: Seq<u8>) -> Option<u64>
    decreases entries.len(),
{
    if entries.len() == 0 {
        None
    } else if entries[0].0 == key {
        Some(entries[0].1)
    } else {
        dict_lookup(entries.drop_first(), key)
    }
}

impl DiskFieldReader {
    pub open spec fn eview(self) -> Seq<(Seq<u8>, u64)> {
        entries_view(
            Seq::new(self.entries@.len(), |i: int| self.entries@[i].0),
            Seq::new(self.entries@.len(), |i: int| self.entries@[i].1),
        )
    }

    /// The first posting offset recorded under the key.
    #[verifier::loop_isolation(false)]
    pub fn get(&self, key: &[u8]) -> (r: Option<u64>)
        ensures
            r == dict_lookup(self.eview(), key@),
    {
        let n = self.entries.len();
        let mut i: usize = 0;
        proof {
            assert(self.eview().skip(0) =~= self.eview());
        }
        while i < n
            invariant
                i <= n,
                dict_lookup(self.eview(), key@) == dict_lookup(
                    self.eview().skip(i as int),
                    key@,
                ),
        decreases n - i,
        {
            proof {
                assert(self.eview().skip(i as int)[0] == self.eview()[i as int]);
                assert(self.eview().skip(i as int).drop_first() =~= self.eview().skip(i + 1));
            }
            if bytes_eq(self.entries[i].0.as_slice(), key) {
                return Some(self.entries[i].1);
            }
            i += 1;
        }
        proof {
            assert(self.eview().skip(n as int) =~= Seq::<(Seq<u8>, u64)>::empty());
        }
        None
    }
}

/// Whether two byte strings are equal.
#[verifier::loop_isolation(false)]
pub fn bytes_eq(a: &[u8], b: &[u8]) -> (r: bool)
    ensures
        r == (a@ == b@),
{
    if a.len() != b.len() {
        return false;
    }
    let mut i: usize = 0;
    while i < a.len()
        invariant
            i <= a@.len(),
            a@.len() == b@.len(),
            forall|k: int| 0 <= k < i ==> a@[k] == b@[k],
        decreases a@.len() - i,
    {
        if a[i] != b[i] {
            return false;
        }
        i += 1;
    }
    proof {
        assert(a@ =~= b@);
    }
    true
}

impl DiskStoreReader {
    /// Wraps a segment's bytes and its per-field dictionary ranges; the
    /// surrounding program opens and maps the file.
    pub fn open(bytes: Vec<u8>, fields: Vec<(usize, usize)>) -> (r: Result<
        DiskStoreReader,
        VBError,
    >)
        ensures
            match r {
                Ok(d) => d.bytes@ == bytes@ && d.fields@ == fields@,
                Err(_) => false,
            },
    {
        Ok(DiskStoreReader { fields, bytes })
    }

    /// Decodes one field's term dictionary. Succeeds exactly when the field
    /// id and its byte range are valid and some entry list encodes to the
    /// range's bytes; that list is unique and is what comes back, and it
    /// re-encodes to the very bytes read. Anything else is reported, never
    /// repaired.
    #[verifier::loop_isolation(false)]
    #[verifier::rlimit(100)]
    pub fn field_reader(&self, field_id: u32) -> (r: Result<DiskFieldReader, VBError>)
        ensures
            match r {
                Ok(fr) => (field_id as int) < self.fields@.len() && {
                    let range = self.fields@[field_id as int];
                    &&& range.0 + range.1 <= self.bytes@.len()
                    &&& dict_bytes(fr.eview(), Seq::empty()) == self.bytes@.subrange(
                        range.0 as int,
                        range.0 + range.1,
                    )
                    &&& forall|e: Seq<(Seq<u8>, u64)>|
                        #[trigger] dict_bytes(e, Seq::empty()) == self.bytes@.subrange(
                            range.0 as int,
                            range.0 + range.1,
                        ) ==> e == fr.eview()
                },
                Err(_) => !((field_id as int) < self.fields@.len()) || !(
                self.fields@[field_id as int].0 + self.fields@[field_id as int].1
                    <= self.bytes@.len()) || !(exists|e: Seq<(Seq<u8>, u64)>|
                    #[trigger] dict_bytes(e, Seq::empty()) == self.bytes@.subrange(
                        self.fields@[field_id as int].0 as int,
                        self.fields@[field_id as int].0 + self.fields@[field_id as int].1,
                    )),
            },
    {
        if field_id as usize >= self.fields.len() {
            return Err(VBError::EOF);
        }
        let (start, len) = self.fields[field_id as usize];
        if start > self.bytes.len() || len > self.bytes.len() - start {
            return Err(VBError::EOF);
        }
        let end = start + len;
        let ghost whole = self.bytes@.subrange(start as int, end as int);
        let mut entries: Vec<(Vec<u8>, u64)> = Vec::new();
        let mut prev: Vec<u8> = Vec::new();
        let mut pos: usize = start;
        proof {
            assert forall|e: Seq<(Seq<u8>, u64)>| #[trigger] dict_bytes(e, Seq::empty())
                == whole implies e.len() >= pairs_view(entries@).len() && e.take(
                entries@.len() as int,
            ) == pairs_view(entries@) && dict_bytes(e.skip(entries@.len() as int), prev@)
                == self.bytes@.subrange(pos as int, end as int) by {
                assert(e.take(0) =~= Seq::<(Seq<u8>, u64)>::empty());
                assert(pairs_view(entries@) =~= Seq::<(Seq<u8>, u64)>::empty());
                assert(e.skip(0) =~= e);
            }
        }
        while pos < end
            invariant
                start <= pos <= end <= self.bytes@.len(),
                forall|e: Seq<(Seq<u8>, u64)>|
                    #[trigger] dict_bytes(e, Seq::empty()) == whole ==> e.len() >= pairs_view(
                        entries@,
                    ).len() && e.take(entries@.len() as int) == pairs_view(entries@)
                        && dict_bytes(e.skip(entries@.len() as int), prev@)
                        == self.bytes@.subrange(pos as int, end as int),
            decreases end - pos,
        {
            let prev_len = prev.len();
            let ghost n_e = entries@.len() as int;
            let ghost pos0 = pos as int;
            let ghost prev0 = prev@;
            let ghost entries0 = entries@;
            proof {
                assert forall|e: Seq<(Seq<u8>, u64)>| #[trigger] dict_bytes(e, Seq::empty())
                    == whole implies e.len() > n_e by {
                    if e.len() == n_e {
                        assert(e.skip(n_e) =~= Seq::<(Seq<u8>, u64)>::empty());
                        assert(dict_bytes(e.skip(n_e), prev0).len() == 0);
                    }
                }
            }
            let (pl64, n1) = match crate::varint::read_vu64(self.bytes.as_slice(), pos) {
                Some(p) => p,
                None => {
                    proof {
                        assert forall|e: Seq<(Seq<u8>, u64)>| !(#[trigger] dict_bytes(
                            e,
                            Seq::empty(),
                        ) == whole) by {
                            if dict_bytes(e, Seq::empty()) == whole {
                                lemma_dict_step(self.bytes@, pos0, end as int, prev0, e.skip(n_e));
                                let k = e.skip(n_e)[0].0;
                                let v = e.skip(n_e)[0].1;
                                let p = cpl(prev0, k);
                                let p1 = pos0 + crate::varint::vu64_of(p as nat).len();
                                let p2 = p1 + crate::varint::vu64_of((k.len() - p) as nat).len();
                                let p3 = p2 + (k.len() - p);
                                let p4 = p3 + crate::varint::vu64_of(v as nat).len();
                                crate::varint::lemma_vu64_len_pos(p as nat);
                                crate::varint::lemma_vu64_len_pos((k.len() - p) as nat);
                                crate::varint::lemma_vu64_len_pos(v as nat);
                                assert(p <= prev0.len() && prev0.len() <= u64::MAX);
                                assert(((p as u64) as nat) == p as nat);
                                assert(!crate::varint::vu64_at(self.bytes@, pos0, (p as u64) as nat));
                                assert(false);
                            }
                        }
                    }
                    return Err(VBError::CorruptIndex);
                },
            };
            pos = pos + n1;
            if pos > end || pl64 > prev_len as u64 {
                proof {
                        assert forall|e: Seq<(Seq<u8>, u64)>| !(#[trigger] dict_bytes(
                            e,
                            Seq::empty(),
                        ) == whole) by {
                            if dict_bytes(e, Seq::empty()) == whole {
                                lemma_dict_step(self.bytes@, pos0, end as int, prev0, e.skip(n_e));
                                let k = e.skip(n_e)[0].0;
                                let v = e.skip(n_e)[0].1;
                                let p = cpl(prev0, k);
                                let p1 = pos0 + crate::varint::vu64_of(p as nat).len();
                                let p2 = p1 + crate::varint::vu64_of((k.len() - p) as nat).len();
                                let p3 = p2 + (k.len() - p);
                                let p4 = p3 + crate::varint::vu64_of(v as nat).len();
                                crate::varint::lemma_vu64_len_pos(p as nat);
                                crate::varint::lemma_vu64_len_pos((k.len() - p) as nat);
                                crate::varint::lemma_vu64_len_pos(v as nat);
                                crate::varint::lemma_vu64_unique_at(
                                    self.bytes@,
                                    pos0,
                                    pl64 as nat,
                                    p as nat,
                                );
                                assert(pos == p1 && p1 < p2 <= end);
                                assert(pl64 as nat == p as nat && p <= prev0.len());
                                assert(false);
                            }
                        }
                    }
                return Err(VBError::CorruptIndex);
            }
            let pl = pl64 as usize;
            let (sl64, n2) = match crate::varint::read_vu64(self.bytes.as_slice(), pos) {
                Some(p) => p,
                None => {
                    proof {
                        assert forall|e: Seq<(Seq<u8>, u64)>| !(#[trigger] dict_bytes(
                            e,
                            Seq::empty(),
                        ) == whole) by {
                            if dict_bytes(e, Seq::empty()) == whole {
                                lemma_dict_step(self.bytes@, pos0, end as int, prev0, e.skip(n_e));
                                let k = e.skip(n_e)[0].0;
                                let v = e.skip(n_e)[0].1;
                                let p = cpl(prev0, k);
                                let p1 = pos0 + crate::varint::vu64_of(p as nat).len();
                                let p2 = p1 + crate::varint::vu64_of((k.len() - p) as nat).len();
                                let p3 = p2 + (k.len() - p);
                                let p4 = p3 + crate::varint::vu64_of(v as nat).len();
                                crate::varint::lemma_vu64_len_pos(p as nat);
                                crate::varint::lemma_vu64_len_pos((k.len() - p) as nat);
                                crate::varint::lemma_vu64_len_pos(v as nat);
                                crate::varint::lemma_vu64_unique_at(
                                    self.bytes@,
                                    pos0,
                                    pl64 as nat,
                                    p as nat,
                                );
                                assert(pos == p1);
                                assert(k.len() - p <= end && end <= u64::MAX);
                                assert((((k.len() - p) as u64) as nat) == (k.len() - p) as nat);
                                assert(!crate::varint::vu64_at(
                                    self.bytes@,
                                    p1,
                                    ((k.len() - p) as u64) as nat,
                                ));
                                assert(false);
                            }
                        }
                    }
                    return Err(VBError::CorruptIndex);
                },
            };
            pos = pos + n2;
            if pos > end || sl64 > (end - pos) as u64 {
                proof {
                        assert forall|e: Seq<(Seq<u8>, u64)>| !(#[trigger] dict_bytes(
                            e,
                            Seq::empty(),
                        ) == whole) by {
                            if dict_bytes(e, Seq::empty()) == whole {
                                lemma_dict_step(self.bytes@, pos0, end as int, prev0, e.skip(n_e));
                                let k = e.skip(n_e)[0].0;
                                let v = e.skip(n_e)[0].1;
                                let p = cpl(prev0, k);
                                let p1 = pos0 + crate::varint::vu64_of(p as nat).len();
                                let p2 = p1 + crate::varint::vu64_of((k.len() - p) as nat).len();
                                let p3 = p2 + (k.len() - p);
                                let p4 = p3 + crate::varint::vu64_of(v as nat).len();
                                crate::varint::lemma_vu64_len_pos(p as nat);
                                crate::varint::lemma_vu64_len_pos((k.len() - p) as nat);
                                crate::varint::lemma_vu64_len_pos(v as nat);
                                crate::varint::lemma_vu64_unique_at(
                                    self.bytes@,
                                    pos0,
                                    pl64 as nat,
                                    p as nat,
                                );
                                crate::varint::lemma_vu64_unique_at(
                                    self.bytes@,
                                    p1,
                                    sl64 as nat,
                                    (k.len() - p) as nat,
                                );
                                assert(pos == p2 && p2 <= p3 <= end);
                                assert(sl64 as nat == (k.len() - p) as nat);
                                assert(false);
                            }
                        }
                    }
                return Err(VBError::CorruptIndex);
            }
            let sl = sl64 as usize;
            let mut key: Vec<u8> = Vec::new();
            let mut w: usize = 0;
            while w < pl
                invariant
                    w <= pl <= prev@.len(),
                    key@ == prev@.subrange(0, w as int),
                decreases pl - w,
            {
                key.push(prev[w]);
                proof {
                    assert(key@ =~= prev@.subrange(0, w + 1));
                }
                w += 1;
            }
            let ghost keypre = key@;
            let mut u: usize = 0;
            while u < sl
                invariant
                    u <= sl,
                    pos + sl <= end <= self.bytes@.len(),
                    key@ == keypre + self.bytes@.subrange(pos as int, pos + u),
                decreases sl - u,
            {
                key.push(self.bytes[pos + u]);
                proof {
                    assert(key@ =~= keypre + self.bytes@.subrange(pos as int, pos + u + 1));
                }
                u += 1;
            }
            pos = pos + sl;
            let (val, n3) = match crate::varint::read_vu64(self.bytes.as_slice(), pos) {
                Some(p) => p,
                None => {
                    proof {
                        assert forall|e: Seq<(Seq<u8>, u64)>| !(#[trigger] dict_bytes(
                            e,
                            Seq::empty(),
                        ) == whole) by {
                            if dict_bytes(e, Seq::empty()) == whole {
                                lemma_dict_step(self.bytes@, pos0, end as int, prev0, e.skip(n_e));
                                let k = e.skip(n_e)[0].0;
                                let v = e.skip(n_e)[0].1;
                                let p = cpl(prev0, k);
                                let p1 = pos0 + crate::varint::vu64_of(p as nat).len();
                                let p2 = p1 + crate::varint::vu64_of((k.len() - p) as nat).len();
                                let p3 = p2 + (k.len() - p);
                                let p4 = p3 + crate::varint::vu64_of(v as nat).len();
                                crate::varint::lemma_vu64_len_pos(p as nat);
                                crate::varint::lemma_vu64_len_pos((k.len() - p) as nat);
                                crate::varint::lemma_vu64_len_pos(v as nat);
                                crate::varint::lemma_vu64_unique_at(
                                    self.bytes@,
                                    pos0,
                                    pl64 as nat,
                                    p as nat,
                                );
                                crate::varint::lemma_vu64_unique_at(
                                    self.bytes@,
                                    p1,
                                    sl64 as nat,
                                    (k.len() - p) as nat,
                                );
                                assert(pos == p3);
                                assert(!crate::varint::vu64_at(self.bytes@, p3, v as nat));
                                assert(false);
                            }
                        }
                    }
                    return Err(VBError::CorruptIndex);
                },
            };
            pos = pos + n3;
            if pos > end {
                proof {
                        assert forall|e: Seq<(Seq<u8>, u64)>| !(#[trigger] dict_bytes(
                            e,
                            Seq::empty(),
                        ) == whole) by {
                            if dict_bytes(e, Seq::empty()) == whole {
                                lemma_dict_step(self.bytes@, pos0, end as int, prev0, e.skip(n_e));
                                let k = e.skip(n_e)[0].0;
                                let v = e.skip(n_e)[0].1;
                                let p = cpl(prev0, k);
                                let p1 = pos0 + crate::varint::vu64_of(p as nat).len();
                                let p2 = p1 + crate::varint::vu64_of((k.len() - p) as nat).len();
                                let p3 = p2 + (k.len() - p);
                                let p4 = p3 + crate::varint::vu64_of(v as nat).len();
                                crate::varint::lemma_vu64_len_pos(p as nat);
                                crate::varint::lemma_vu64_len_pos((k.len() - p) as nat);
                                crate::varint::lemma_vu64_len_pos(v as nat);
                                crate::varint::lemma_vu64_unique_at(
                                    self.bytes@,
                                    pos0,
                                    pl64 as nat,
                                    p as nat,
                                );
                                crate::varint::lemma_vu64_unique_at(
                                    self.bytes@,
                                    p1,
                                    sl64 as nat,
                                    (k.len() - p) as nat,
                                );
                                crate::varint::lemma_vu64_unique_at(
                                    self.bytes@,
                                    p3,
                                    val as nat,
                                    v as nat,
                                );
                                assert(pos == p4 && p4 <= end);
                                assert(false);
                            }
                        }
                    }
                return Err(VBError::CorruptIndex);
            }
            prev = Vec::new();
            let mut w2: usize = 0;
            let kl = key.len();
            while w2 < kl
                invariant
                    w2 <= kl,
                    kl == key@.len(),
                    prev@ == key@.subrange(0, w2 as int),
                decreases kl - w2,
            {
                prev.push(key[w2]);
                proof {
                    assert(prev@ =~= key@.subrange(0, w2 + 1));
                }
                w2 += 1;
            }
            proof {
                assert(prev@ =~= key@);
            }
            let ghost keyv = key@;
            let ghost valv = val;
            entries.push((key, val));
            proof {
                assert forall|e: Seq<(Seq<u8>, u64)>| #[trigger] dict_bytes(e, Seq::empty())
                    == whole implies e.len() >= pairs_view(entries@).len() && e.take(
                    entries@.len() as int,
                ) == pairs_view(entries@) && dict_bytes(e.skip(entries@.len() as int), prev@)
                    == self.bytes@.subrange(pos as int, end as int) by {
                    assert(e.len() > n_e);
                    assert(dict_bytes(e.skip(n_e), prev0) == self.bytes@.subrange(
                        pos0,
                        end as int,
                    ));
                    lemma_dict_step(self.bytes@, pos0, end as int, prev0, e.skip(n_e));
                    let k = e.skip(n_e)[0].0;
                    let v = e.skip(n_e)[0].1;
                    let p = cpl(prev0, k);
                    crate::varint::lemma_vu64_unique_at(self.bytes@, pos0, pl64 as nat, p as nat);
                    let p1 = pos0 + crate::varint::vu64_of(p as nat).len();
                    crate::varint::lemma_vu64_unique_at(
                        self.bytes@,
                        p1,
                        sl64 as nat,
                        (k.len() - p) as nat,
                    );
                    let p2 = p1 + crate::varint::vu64_of((k.len() - p) as nat).len();
                    let p3 = p2 + (k.len() - p);
                    crate::varint::lemma_vu64_unique_at(self.bytes@, p3, valv as nat, v as nat);
                    assert(keyv =~= prev0.take(p as int) + self.bytes@.subrange(p2, p3));
                    assert(keyv =~= k.take(p as int) + k.skip(p as int));
                    assert(keyv =~= k);
                    assert(e.skip(n_e).drop_first() =~= e.skip(n_e + 1));
                    assert(e.take(n_e + 1) =~= e.take(n_e).push(e[n_e]));
                    assert(e[n_e] == e.skip(n_e)[0]);
                    assert(e.take(n_e) == pairs_view(entries0));
                    assert(pairs_view(entries@) =~= pairs_view(entries0).push((keyv, valv)));
                    assert(e.take(n_e + 1) =~= pairs_view(entries@));
                }
            }
        }
        // The decoded entries must re-encode to the very bytes read: anything
        // else is reported, never repaired.
        let mut ib = IndexBlock::new();
        let mut t: usize = 0;
        let fr = DiskFieldReader { entries };
        proof {
            assert(fr.eview() =~= pairs_view(fr.entries@));
        }
        while t < fr.entries.len()
            invariant
                t <= fr.entries@.len(),
                ib.wf(),
                ib.entries() == fr.eview().take(t as int),
            decreases fr.entries@.len() - t,
        {
            let _ = ib.add(fr.entries[t].0.as_slice(), fr.entries[t].1);
            proof {
                assert(ib.entries() =~= fr.eview().take(t + 1));
            }
            t += 1;
        }
        proof {
            assert(fr.eview().take(fr.entries@.len() as int) =~= fr.eview());
        }
        let _ = ib.finish();
        let range = slice_subrange(self.bytes.as_slice(), start, end);
        if bytes_eq(ib.buf.as_slice(), range) {
            proof {
                assert forall|e: Seq<(Seq<u8>, u64)>| #[trigger] dict_bytes(e, Seq::empty())
                    == whole implies e == fr.eview() by {
                    assert(dict_bytes(e.skip(e.len() as int), prev@).len() == 0) by {
                        if e.len() > pairs_view(fr.entries@).len() {
                        }
                    }
                    if e.len() > pairs_view(fr.entries@).len() {
                        lemma_dict_bytes_nonempty(e.skip(pairs_view(fr.entries@).len() as int), prev@);
                        assert(false);
                    }
                    assert(e.len() == pairs_view(fr.entries@).len());
                    assert(e.take(e.len() as int) =~= e);
                }
            }
            Ok(fr)
        } else {
            proof {
                assert forall|e: Seq<(Seq<u8>, u64)>| !(#[trigger] dict_bytes(e, Seq::empty())
                    == whole) by {
                    if dict_bytes(e, Seq::empty()) == whole {
                        if e.len() > pairs_view(fr.entries@).len() {
                            lemma_dict_bytes_nonempty(
                                e.skip(pairs_view(fr.entries@).len() as int),
                                prev@,
                            );
                            assert(false);
                        }
                        assert(e.len() == pairs_view(fr.entries@).len());
                        assert(e.take(e.len() as int) =~= e);
                        assert(e == fr.eview());
                        assert(ib.buf@ == dict_bytes(fr.eview(), Seq::empty()));
                        assert(range@ == whole);
                        assert(false);
                    }
                }
            }
            Err(VBError::CorruptIndex)
        }
    }

    /// Looks a term up: the posting offset the queried field's dictionary —
    /// the unique entry list encoding that field's byte range — records
    /// under the term. Fails exactly when the field or its range is invalid,
    /// no dictionary encodes the range, or the term is absent from it.
    pub fn search(&self, term: &Term) -> (r: Result<u64, VBError>)
        ensures
            match r {
                Ok(v) => exists|e: Seq<(Seq<u8>, u64)>|
                    #[trigger] dict_bytes(e, Seq::empty()) == self.bytes@.subrange(
                        self.fields@[term.field_id as int].0 as int,
                        self.fields@[term.field_id as int].0
                            + self.fields@[term.field_id as int].1,
                    ) && (term.field_id as int) < self.fields@.len() && dict_lookup(
                        e,
                        term.bytes@,
                    ) == Some(v),
                Err(_) => !((term.field_id as int) < self.fields@.len()
                    && self.fields@[term.field_id as int].0
                    + self.fields@[term.field_id as int].1 <= self.bytes@.len() && exists|
                    e: Seq<(Seq<u8>, u64)>,
                |
                    #[trigger] dict_bytes(e, Seq::empty()) == self.bytes@.subrange(
                        self.fields@[term.field_id as int].0 as int,
                        self.fields@[term.field_id as int].0
                            + self.fields@[term.field_id as int].1,
                    ) && dict_lookup(e, term.bytes@) is Some),
            },
    {
        let fr = match self.field_reader(term.field_id) {
            Ok(fr) => fr,
            Err(e) => {
                return Err(e);
            },
        };
        match fr.get(term.bytes.as_slice()) {
            Some(v) => {
                proof {
                    assert(dict_lookup(fr.eview(), term.bytes@) == Some(v));
                }
                Ok(v)
            },
            None => {
                proof {
                    assert(dict_lookup(fr.eview(), term.bytes@) is None);
                }
                Err(VBError::EOF)
            },
        }
    }
}

/// Ghost image of a list of decoded entries.
pub open spec fn pairs_view(s: Seq<(Vec<u8>, u64)>) -> Seq<(Seq<u8>, u64)> {
    Seq::new(s.len(), |i: int| (s[i].0@, s[i].1))
}

/// Compacting loses no answer: where one segment holds exactly the rows of
/// two others, the exact top-k against it alone equals the merge of the two
/// per-segment top-k answers.
pub proof fn lemma_compact_preserves_query(
    rows1: Seq<RowV>,
    rows2: Seq<RowV>,
    q: Seq<i64>,
    k: int,
    r1: Seq<RankedResult>,
    r2: Seq<RankedResult>,
    rm: Seq<RankedResult>,
    direct: Seq<RankedResult>,
)
    requires
        k >= 0,
        distinct_ids(scored_of(rows1 + rows2, q)),
        is_top_k(scored_of(rows1, q), k, r1),
        is_top_k(scored_of(rows2, q), k, r2),
        is_top_k(r1 + r2, k, rm),
        is_top_k(scored_of(rows1 + rows2, q), k, direct),
    ensures
        rm == direct,
{
    assert(scored_of(rows1 + rows2, q) =~= scored_of(rows1, q) + scored_of(rows2, q));
    crate::ranked::lemma_top_k_merge(scored_of(rows1, q), scored_of(rows2, q), k, r1, r2, rm);
    crate::ranked::lemma_top_k_unique(scored_of(rows1 + rows2, q), k, rm, direct);
}

} // verus!
