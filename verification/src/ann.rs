use crate::hnsw::Neighbor;
use crate::hnsw::HNSW;
use crate::metric::coord_ok;
use crate::metric::COORD_BOUND;
use vstd::prelude::*;

verus! {

/// The capability contract shared by vector-index kinds, so further
/// approximate-nearest-neighbor algorithms can stand beside the graph index
/// without disturbing the collection logic: insert a vector under a label,
/// and fetch the labels nearest a probe.
pub trait AnnIndex<T, B> {
    fn insert(&mut self, k: T, v: u64);

    fn near(&mut self, k: &T, count: usize) -> Vec<B>;
}

/// The graph index behind the shared capability contract: a well-formed
/// graph with one label per node, kept as a type invariant. Writes that the
/// index cannot take (wrong dimensionality, out-of-range components, a full
/// arena) are dropped, as the contract offers no error channel.
pub struct AnnHnsw {
    pub inner: HNSW,
    pub labels: Vec<u64>,
}

impl AnnHnsw {
    pub open spec fn inv(self) -> bool {
        &&& self.inner.wf()
        &&& self.labels@.len() == self.inner.n()
    }

    pub open spec fn label_count(self) -> int {
        self.labels@.len() as int
    }

    pub fn new(m: usize, ef_construction: usize, ef_search: usize, max_level: usize, dims: usize) -> (a: AnnHnsw)
        requires
            1 <= m <= 0x10000,
            1 <= ef_construction <= 0x10000,
            1 <= ef_search <= 0x10000,
            max_level <= 64,
            1 <= dims <= crate::metric::MAX_DIMS,
        ensures
            a.label_count() == 0,
            a.inv(),
    {
        AnnHnsw { inner: HNSW::new(m, ef_construction, ef_search, max_level, dims), labels: Vec::new() }
    }
}

impl AnnIndex<Vec<i64>, Neighbor> for AnnHnsw {
    fn insert(&mut self, k: Vec<i64>, v: u64) {
        if !crate::codec::check_wf(&self.inner) {
            return ;
        }
        if self.labels.len() != self.inner.nodes.len() {
            return ;
        }
        if k.len() != self.inner.dims {
            return ;
        }
        if self.inner.nodes.len() >= 0xfffffffe {
            return ;
        }
        let mut c: usize = 0;
        let mut ok = true;
        while c < k.len()
            invariant
                c <= k@.len(),
                ok ==> forall|t: int| 0 <= t < c ==> coord_ok(#[trigger] k@[t]),
            decreases k@.len() - c,
        {
            if k[c] < -COORD_BOUND || k[c] > COORD_BOUND {
                ok = false;
                c = k.len();
            } else {
                c += 1;
            }
        }
        if !ok {
            return ;
        }
        let _ = self.inner.insert(k);
        self.labels.push(v);
    }

    fn near(&mut self, k: &Vec<i64>, count: usize) -> (r: Vec<Neighbor>) {
        if !crate::codec::check_wf(&self.inner) {
            return Vec::new();
        }
        let mut c: usize = 0;
        let mut ok = true;
        while c < k.len()
            invariant
                c <= k@.len(),
                ok ==> forall|t: int| 0 <= t < c ==> coord_ok(#[trigger] k@[t]),
            decreases k@.len() - c,
        {
            if k[c] < -COORD_BOUND || k[c] > COORD_BOUND {
                ok = false;
                c = k.len();
            } else {
                c += 1;
            }
        }
        if !ok {
            return Vec::new();
        }
        match self.inner.query(k, count) {
            Ok(nbs) => nbs,
            Err(_) => Vec::new(),
        }
    }
}

} // verus!
