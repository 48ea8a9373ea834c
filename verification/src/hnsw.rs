use crate::error::VBError;
use crate::metric::coords_ok;
use crate::metric::dist2;
use crate::metric::lemma_dist2_sym;
use crate::metric::distance;
use crate::metric::MAX_DIMS;
use vstd::prelude::*;

verus! {

/// One scored graph edge or search result: a node id and the squared
/// Euclidean distance between the two endpoints' vectors.
#[derive(Clone, Copy, Debug, PartialEq, Eq, Structural)]
pub struct Neighbor {
    pub id: u64,
    pub d: u64,
}

/// One arena slot of the graph: the node's top layer, one neighbor list per
/// layer `0..=level`, and the node's vector. Nodes refer to each other by
/// arena index only, so the cyclic neighbor graph needs no ownership cycles.
pub struct Node {
    pub level: usize,
    pub neighbors: Vec<Vec<Neighbor>>,
    pub p: Vec<i64>,
}

/// A hierarchical navigable small-world index over integer-component vectors.
///
/// Layer capacities: layer 0 holds at most `2 * m` neighbors per node, every
/// higher layer at most `m`. The entry point is the single node whose level
/// equals `max_layer`, the root of every traversal.
pub struct HNSW {
    pub nodes: Vec<Node>,
    pub enter_point: usize,
    pub max_layer: usize,
    pub m: usize,
    pub ef_construction: usize,
    pub ef_search: usize,
    pub max_level: usize,
    pub dims: usize,
}

impl HNSW {
    pub open spec fn n(self) -> int {
        self.nodes@.len() as int
    }

    pub open spec fn node_level(self, i: int) -> int {
        self.nodes@[i].level as int
    }

    pub open spec fn node_vec(self, i: int) -> Seq<i64> {
        self.nodes@[i].p@
    }

    pub open spec fn nbrs(self, i: int, l: int) -> Seq<Neighbor> {
        self.nodes@[i].neighbors@[l]@
    }

    /// Capacity of one neighbor list: `2m` on the ground layer, `m` above.
    pub open spec fn cap(self, l: int) -> int {
        if l == 0 {
            2 * self.m as int
        } else {
            self.m as int
        }
    }

    pub open spec fn params_ok(self) -> bool {
        &&& 1 <= self.m <= 0x10000
        &&& 1 <= self.ef_construction <= 0x10000
        &&& 1 <= self.ef_search <= 0x10000
        &&& self.max_level <= 64
        &&& 1 <= self.dims <= MAX_DIMS
    }

    /// A stored edge from node `i` at layer `l`: the target exists, is
    /// present at layer `l` (its level is at least `l`, the layered-subgraph
    /// invariant), is not `i` itself, and carries the true squared distance
    /// between the endpoints' vectors.
    pub open spec fn edge_ok(self, i: int, l: int, e: Neighbor) -> bool {
        &&& 0 <= (e.id as int) < self.n()
        &&& self.node_level(e.id as int) >= l
        &&& e.id as int != i
        &&& e.d == dist2(self.node_vec(i), self.node_vec(e.id as int))
    }

    pub open spec fn node_ok(self, i: int) -> bool {
        let node = self.nodes@[i];
        &&& node.neighbors@.len() == node.level + 1
        &&& self.node_level(i) <= self.max_layer
        &&& node.level <= self.max_level
        &&& node.p@.len() == self.dims
        &&& coords_ok(node.p@)
        &&& forall|l: int|
            0 <= l <= node.level ==> #[trigger] self.nbrs(i, l).len() <= self.cap(l)
        &&& forall|l: int, j: int|
            0 <= l <= node.level && 0 <= j < self.nbrs(i, l).len() ==> self.edge_ok(
                i,
                l,
                #[trigger] self.nbrs(i, l)[j],
            )
    }

    /// Well-formedness: every insert establishes it and every operation
    /// preserves it.
    pub open spec fn wf(self) -> bool {
        &&& self.params_ok()
        &&& self.n() <= 0xffffffff
        &&& forall|i: int| 0 <= i < self.n() ==> #[trigger] self.node_ok(i)
        &&& self.n() > 0 ==> self.enter_point < self.n() && self.node_level(
            self.enter_point as int,
        ) == self.max_layer
        &&& self.n() == 0 ==> self.max_layer == 0 && self.enter_point == 0
    }

    /// What holds of one search result for query `q` at `level`.
    pub open spec fn result_ok(self, q: Seq<i64>, level: int, e: Neighbor) -> bool {
        &&& 0 <= (e.id as int) < self.n()
        &&& self.node_level(e.id as int) >= level
        &&& e.d == dist2(q, self.node_vec(e.id as int))
    }
}

/// Whether `dst` is reached from `src` in at most `n` hops along layer
/// `level` edges.
pub open spec fn reach(h: HNSW, src: int, level: int, dst: int, n: nat) -> bool
    decreases n,
{
    if src == dst {
        true
    } else if n == 0 {
        false
    } else {
        exists|j: int|
            0 <= j < h.nbrs(src, level).len() && reach(
                h,
                (#[trigger] h.nbrs(src, level)[j]).id as int,
                level,
                dst,
                (n - 1) as nat,
            )
    }
}

/// Whether `dst` is reachable from `src` along layer `level` edges.
pub open spec fn reachable(h: HNSW, src: int, level: int, dst: int) -> bool {
    exists|n: nat| reach(h, src, level, dst, n)
}

/// A reached node's layer neighbors are reached one hop later.
proof fn lemma_reach_step(h: HNSW, src: int, level: int, c: int, j: int, n: nat)
    requires
        reach(h, src, level, c, n),
        0 <= j < h.nbrs(c, level).len(),
    ensures
        reach(h, src, level, h.nbrs(c, level)[j].id as int, (n + 1) as nat),
    decreases n,
{
    if src == c {
        assert(reach(h, h.nbrs(c, level)[j].id as int, level, h.nbrs(c, level)[j].id as int, n));
    } else {
        let w = choose|w: int|
            0 <= w < h.nbrs(src, level).len() && reach(
                h,
                (#[trigger] h.nbrs(src, level)[w]).id as int,
                level,
                c,
                (n - 1) as nat,
            );
        lemma_reach_step(h, h.nbrs(src, level)[w].id as int, level, c, j, (n - 1) as nat);
    }
}

/// Layered-subgraph law: a node listed as a neighbor at layer `l` has level
/// at least `l`. A node of level `v` participates in exactly the layers
/// `0..=v` (it owns one neighbor list per such layer), so the edge's target
/// is present at every layer `0..=l`.
pub proof fn lemma_layered_subgraph(h: HNSW, i: int, l: int, j: int)
    requires
        h.wf(),
        0 <= i < h.n(),
        0 <= l <= h.node_level(i),
        0 <= j < h.nbrs(i, l).len(),
    ensures
        h.node_level(h.nbrs(i, l)[j].id as int) >= l,
        h.nodes@[h.nbrs(i, l)[j].id as int].neighbors@.len() == h.node_level(
            h.nbrs(i, l)[j].id as int,
        ) + 1,
{
    assert(h.node_ok(i));
    assert(h.node_ok(h.nbrs(i, l)[j].id as int));
}

/// Capacity law: in a well-formed index every ground-layer neighbor list
/// holds at most `2m` entries and every higher layer at most `m`.
pub proof fn lemma_neighbor_capacity(h: HNSW, i: int, l: int)
    requires
        h.wf(),
        0 <= i < h.n(),
        0 <= l <= h.node_level(i),
    ensures
        h.nbrs(i, l).len() <= if l == 0 {
            2 * h.m as int
        } else {
            h.m as int
        },
{
    assert(h.node_ok(i));
}

/// Copies a vector's components.
fn copy_i64s(v: &Vec<i64>) -> (r: Vec<i64>)
    ensures
        r@ == v@,
{
    let mut r: Vec<i64> = Vec::new();
    let mut i: usize = 0;
    while i < v.len()
        invariant
            i <= v@.len(),
            r@ == v@.subrange(0, i as int),
        decreases v@.len() - i,
    {
        r.push(v[i]);
        i += 1;
    }
    proof {
        assert(r@ =~= v@);
    }
    r
}

/// Copies a neighbor list.
fn copy_neighbors(v: &Vec<Neighbor>) -> (r: Vec<Neighbor>)
    ensures
        r@ == v@,
{
    let mut r: Vec<Neighbor> = Vec::new();
    let mut i: usize = 0;
    while i < v.len()
        invariant
            i <= v@.len(),
            r@ == v@.subrange(0, i as int),
        decreases v@.len() - i,
    {
        r.push(v[i]);
        i += 1;
    }
    proof {
        assert(r@ =~= v@);
    }
    r
}

/// Removes and returns an element of least distance.
fn extract_min(v: &mut Vec<Neighbor>) -> (e: Neighbor)
    requires
        old(v)@.len() > 0,
    ensures
        final(v)@.len() == old(v)@.len() - 1,
        exists|i: int|
            0 <= i < old(v)@.len() && e == old(v)@[i] && final(v)@ == #[trigger] old(v)@.remove(i),
        forall|j: int| 0 <= j < old(v)@.len() ==> e.d <= #[trigger] old(v)@[j].d,
        forall|j: int|
            0 <= j < final(v)@.len() ==> old(v)@.contains(#[trigger] final(v)@[j]) && e.d
                <= final(v)@[j].d,
{
    let mut best: usize = 0;
    let mut i: usize = 1;
    while i < v.len()
        invariant
            best < i <= v@.len(),
            forall|j: int| 0 <= j < i ==> v@[best as int].d <= #[trigger] v@[j].d,
        decreases v@.len() - i,
    {
        if v[i].d < v[best].d {
            best = i;
        }
        i += 1;
    }
    let e = v.remove(best);
    proof {
        assert(v@ == old(v)@.remove(best as int));
        assert forall|j: int| 0 <= j < v@.len() implies old(v)@.contains(#[trigger] v@[j])
            && e.d <= v@[j].d by {
            if j < best {
                assert(v@[j] == old(v)@[j]);
            } else {
                assert(v@[j] == old(v)@[j + 1]);
            }
        }
    }
    e
}

/// Index of an element of greatest distance.
fn max_index(v: &Vec<Neighbor>) -> (idx: usize)
    requires
        v@.len() > 0,
    ensures
        idx < v@.len(),
        forall|j: int| 0 <= j < v@.len() ==> #[trigger] v@[j].d <= v@[idx as int].d,
{
    let mut best: usize = 0;
    let mut i: usize = 1;
    while i < v.len()
        invariant
            best < i <= v@.len(),
            forall|j: int| 0 <= j < i ==> #[trigger] v@[j].d <= v@[best as int].d,
        decreases v@.len() - i,
    {
        if v[i].d > v[best].d {
            best = i;
        }
        i += 1;
    }
    best
}

/// Count of set flags in a visited map.
pub open spec fn count_true(s: Seq<bool>) -> int
    decreases s.len(),
{
    if s.len() == 0 {
        0
    } else {
        count_true(s.drop_last()) + if s.last() {
            1int
        } else {
            0int
        }
    }
}

proof fn lemma_count_true_bounds(s: Seq<bool>)
    ensures
        0 <= count_true(s) <= s.len(),
    decreases s.len(),
{
    if s.len() > 0 {
        lemma_count_true_bounds(s.drop_last());
    }
}

proof fn lemma_count_true_update(s: Seq<bool>, i: int)
    requires
        0 <= i < s.len(),
        !s[i],
    ensures
        count_true(s.update(i, true)) == count_true(s) + 1,
    decreases s.len(),
{
    if i == s.len() - 1 {
        assert(s.update(i, true).drop_last() =~= s.drop_last());
    } else {
        assert(s.update(i, true).drop_last() =~= s.drop_last().update(i, true));
        lemma_count_true_update(s.drop_last(), i);
    }
}

impl HNSW {
    /// Greedy descent within one layer: repeatedly moves to any neighbor
    /// closer to the query until no neighbor improves, keeping a single
    /// closest candidate.
    #[verifier::loop_isolation(false)]
    fn greedy_at_layer(&self, q: &Vec<i64>, ep: Neighbor, level: usize) -> (r: Neighbor)
        requires
            self.wf(),
            q@.len() == self.dims,
            coords_ok(q@),
            self.result_ok(q@, level as int, ep),
        ensures
            self.result_ok(q@, level as int, r),
            r.d <= ep.d,
    {
        let mut best = ep;
        loop
            invariant
                self.result_ok(q@, level as int, best),
                best.d <= ep.d,
            decreases best.d,
        {
            let bid = best.id as usize;
            proof {
                assert(self.node_ok(bid as int));
            }
            let lst = &self.nodes[bid].neighbors[level];
            let mut found = best;
            let mut j: usize = 0;
            while j < lst.len()
                invariant
                    j <= lst@.len(),
                    lst@ == self.nbrs(bid as int, level as int),
                    self.result_ok(q@, level as int, found),
                    found.d <= best.d,
                decreases lst@.len() - j,
            {
                let e = lst[j];
                proof {
                    assert(self.edge_ok(bid as int, level as int, e));
                    assert(self.node_ok(e.id as int));
                }
                let dd = distance(q, &self.nodes[e.id as usize].p);
                if dd < found.d {
                    found = Neighbor { id: e.id, d: dd };
                }
                j += 1;
            }
            if found.d < best.d {
                best = found;
            } else {
                return best;
            }
        }
    }

    /// Best-first beam search within one layer: returns up to `ef` visited
    /// nodes present at `level`, each scored with its true distance to the
    /// query, with no id repeated.
    #[verifier::loop_isolation(false)]
    pub fn search_at_layer(&self, q: &Vec<i64>, ef: usize, ep: Neighbor, level: usize) -> (res:
        Vec<Neighbor>)
        requires
            self.wf(),
            q@.len() == self.dims,
            coords_ok(q@),
            1 <= ef,
            self.result_ok(q@, level as int, ep),
        ensures
            1 <= res@.len() <= ef,
            forall|k: int|
                0 <= k < res@.len() ==> self.result_ok(q@, level as int, #[trigger] res@[k]),
            forall|k1: int, k2: int|
                0 <= k1 < k2 < res@.len() ==> res@[k1].id != res@[k2].id,
            exists|t: int| 0 <= t < res@.len() && (#[trigger] res@[t]).d <= ep.d,
            forall|k: int|
                0 <= k < res@.len() ==> reachable(
                    *self,
                    ep.id as int,
                    level as int,
                    (#[trigger] res@[k]).id as int,
                ),
    {
        let n = self.nodes.len();
        let mut visited: Vec<bool> = Vec::new();
        let mut vi: usize = 0;
        while vi < n
            invariant
                visited@.len() == vi <= n,
                count_true(visited@) == 0,
                forall|t: int| 0 <= t < vi ==> !(#[trigger] visited@[t]),
            decreases n - vi,
        {
            let ghost pre = visited@;
            visited.push(false);
            proof {
                assert(visited@.drop_last() =~= pre);
            }
            vi += 1;
        }
        let ghost pre0 = visited@;
        visited[ep.id as usize] = true;
        proof {
            lemma_count_true_update(pre0, ep.id as int);
            assert(reach(*self, ep.id as int, level as int, ep.id as int, 0));
        }
        let mut candidates: Vec<Neighbor> = Vec::new();
        let mut results: Vec<Neighbor> = Vec::new();
        candidates.push(ep);
        results.push(ep);
        proof {
            lemma_count_true_bounds(visited@);
            assert(results@[0] == ep && ep.d <= ep.d);
        }
        let mut done = false;
        while !done && candidates.len() > 0
            invariant
                visited@.len() == n,
                1 <= results@.len() <= ef,
                exists|t: int| 0 <= t < results@.len() && (#[trigger] results@[t]).d <= ep.d,
                forall|t: int|
                    0 <= t < n && visited@[t] ==> reachable(*self, ep.id as int, level as int, t),
                forall|k: int|
                    0 <= k < results@.len() ==> self.result_ok(q@, level as int, #[trigger]
                    results@[k]) && visited@[results@[k].id as int],
                forall|k1: int, k2: int|
                    0 <= k1 < k2 < results@.len() ==> results@[k1].id != results@[k2].id,
                forall|k: int|
                    0 <= k < candidates@.len() ==> self.result_ok(q@, level as int, #[trigger]
                    candidates@[k]) && visited@[candidates@[k].id as int],
                count_true(visited@) <= n,
            decreases candidates@.len() + n - count_true(visited@),
        {
            let ghost m0 = candidates@.len() + n - count_true(visited@);
            let c = extract_min(&mut candidates);
            let wi = max_index(&results);
            if c.d > results[wi].d {
                done = true;
                continue ;
            }
            let cid = c.id as usize;
            proof {
                assert(self.node_ok(cid as int));
            }
            let lst = &self.nodes[cid].neighbors[level];
            let mut j: usize = 0;
            while j < lst.len()
                invariant
                    j <= lst@.len(),
                    lst@ == self.nbrs(cid as int, level as int),
                    visited@.len() == n,
                    visited@[c.id as int],
                    1 <= results@.len() <= ef,
                    exists|t: int| 0 <= t < results@.len() && (#[trigger] results@[t]).d <= ep.d,
                    forall|t: int|
                        0 <= t < n && visited@[t] ==> reachable(
                            *self,
                            ep.id as int,
                            level as int,
                            t,
                        ),
                    forall|k: int|
                        0 <= k < results@.len() ==> self.result_ok(q@, level as int, #[trigger]
                        results@[k]) && visited@[results@[k].id as int],
                    forall|k1: int, k2: int|
                        0 <= k1 < k2 < results@.len() ==> results@[k1].id != results@[k2].id,
                    forall|k: int|
                        0 <= k < candidates@.len() ==> self.result_ok(q@, level as int, #[trigger]
                        candidates@[k]) && visited@[candidates@[k].id as int],
                    count_true(visited@) <= n,
                    candidates@.len() + n - count_true(visited@) <= m0 - 1,
                decreases lst@.len() - j,
            {
                let e = lst[j];
                proof {
                    assert(self.edge_ok(cid as int, level as int, e));
                    assert(self.node_ok(e.id as int));
                }
                let eidu = e.id as usize;
                if !visited[eidu] {
                    let ghost pre_visited = visited@;
                    visited[eidu] = true;
                    proof {
                        lemma_count_true_update(pre_visited, eidu as int);
                        lemma_count_true_bounds(visited@);
                        // the new node is one hop past a visited one
                        assert(reachable(*self, ep.id as int, level as int, c.id as int));
                        let hops = choose|hn: nat|
                            reach(*self, ep.id as int, level as int, c.id as int, hn);
                        lemma_reach_step(*self, ep.id as int, level as int, c.id as int, j as int, hops);
                        assert(self.nbrs(cid as int, level as int)[j as int].id as int
                            == eidu as int);
                        assert(reach(
                            *self,
                            ep.id as int,
                            level as int,
                            eidu as int,
                            (hops + 1) as nat,
                        ));
                    }
                    let dist_e = distance(q, &self.nodes[eidu].p);
                    let nb = Neighbor { id: e.id, d: dist_e };
                    let ghost pre_results = results@;
                    proof {
                        assert forall|k: int| 0 <= k < pre_results.len() implies pre_results[k].id
                            != nb.id by {
                            assert(pre_visited[pre_results[k].id as int]);
                        }
                    }
                    if results.len() < ef {
                        results.push(nb);
                        candidates.push(nb);
                        proof {
                            let t0 = choose|t: int|
                                0 <= t < pre_results.len() && (#[trigger] pre_results[t]).d <= ep.d;
                            assert(results@[t0] == pre_results[t0]);
                        }
                    } else {
                        let wi2 = max_index(&results);
                        let ghost wmax = results@[wi2 as int].d;
                        if dist_e < results[wi2].d {
                            results.swap_remove(wi2);
                            results.push(nb);
                            candidates.push(nb);
                            proof {
                                let t0 = choose|t: int|
                                    0 <= t < pre_results.len() && (#[trigger] pre_results[t]).d
                                        <= ep.d;
                                assert(pre_results[t0].d <= ep.d);
                                if pre_results[t0].d >= wmax {
                                    // the removed maximum was itself within the
                                    // bound, so the fresh, closer entry is too
                                    assert(nb.d < wmax <= ep.d);
                                    assert(results@[results@.len() - 1] == nb);
                                } else if t0 == wi2 {
                                    assert(pre_results[wi2 as int].d == wmax);
                                    assert(false);
                                } else if t0 == pre_results.len() - 1 {
                                    assert(results@[wi2 as int] == pre_results[t0]);
                                } else {
                                    assert(results@[t0] == pre_results[t0]);
                                }
                            }
                            proof {
                                assert forall|k: int| 0 <= k < results@.len() - 1 implies (
                                #[trigger] results@[k]) == (if k == wi2 {
                                    pre_results[pre_results.len() - 1]
                                } else {
                                    pre_results[k]
                                }) by {}
                                assert(results@[results@.len() - 1] == nb);
                                assert forall|k1: int, k2: int|
                                    0 <= k1 < k2 < results@.len() implies results@[k1].id
                                    != results@[k2].id by {
                                    if k2 == results@.len() - 1 {
                                        assert(pre_visited[results@[k1].id as int]);
                                    }
                                }
                            }
                        }
                    }
                }
                j += 1;
            }
        }
        results
    }
}

/// Index of an element of least distance.
fn min_index(v: &Vec<Neighbor>) -> (idx: usize)
    requires
        v@.len() > 0,
    ensures
        idx < v@.len(),
        forall|j: int| 0 <= j < v@.len() ==> v@[idx as int].d <= #[trigger] v@[j].d,
{
    let mut best: usize = 0;
    let mut i: usize = 1;
    while i < v.len()
        invariant
            best < i <= v@.len(),
            forall|j: int| 0 <= j < i ==> v@[best as int].d <= #[trigger] v@[j].d,
        decreases v@.len() - i,
    {
        if v[i].d < v[best].d {
            best = i;
        }
        i += 1;
    }
    best
}

/// Everything of two indexes but neighbor-list contents agrees: same node
/// count, parameters, entry point, and per-node levels, vectors and layer
/// counts. Re-linking neighbor lists preserves this relation.
/// `res` holds the `k` rank-least entries of `beam`: as many as the beam
/// allows, all from the beam, and every beam entry left out ranks no closer
/// than anything kept.
pub open spec fn least_of(beam: Seq<Neighbor>, k: int, res: Seq<Neighbor>) -> bool {
    &&& res.len() == if beam.len() <= k {
        beam.len() as int
    } else {
        k
    }
    &&& forall|i: int| 0 <= i < res.len() ==> beam.contains(#[trigger] res[i])
    &&& forall|j: int|
        0 <= j < beam.len() ==> res.contains(#[trigger] beam[j]) || (forall|i: int|
            0 <= i < res.len() ==> res[i].d <= beam[j].d)
}

/// One beam certifying a query answer: every beam entry is a true-distance
/// result on the ground layer, and the answer keeps exactly the beam's `k`
/// closest entries. Opaque: a caller unfolds it with `reveal(beam_answer)`.
#[verifier::opaque]
pub open spec fn beam_answer(
    h: HNSW,
    qv: Seq<i64>,
    k: int,
    res: Seq<Neighbor>,
    beam: Seq<Neighbor>,
) -> bool {
    &&& forall|t: int| 0 <= t < beam.len() ==> h.result_ok(qv, 0, #[trigger] beam[t])
    &&& least_of(beam, k, res)
}

/// Whether node `e` answers a back edge to `id` at layer `l`: its list
/// there holds an edge to `id`, or the list sits at the layer capacity —
/// the one case in which the diversity heuristic may have pruned the back
/// edge away.
pub open spec fn backlinked(h: HNSW, id: int, l: int, e: int) -> bool {
    ||| exists|t: int| 0 <= t < h.nbrs(e, l).len() && (#[trigger] h.nbrs(e, l)[t]).id == id
    ||| h.nbrs(e, l).len() == h.cap(l)
}

pub open spec fn same_graph_shape(a: HNSW, b: HNSW) -> bool {
    &&& b.n() == a.n()
    &&& b.m == a.m
    &&& b.ef_construction == a.ef_construction
    &&& b.ef_search == a.ef_search
    &&& b.max_level == a.max_level
    &&& b.dims == a.dims
    &&& b.enter_point == a.enter_point
    &&& b.max_layer == a.max_layer
    &&& forall|i: int| 0 <= i < a.n() ==> #[trigger] b.node_level(i) == a.node_level(i)
    &&& forall|i: int| 0 <= i < a.n() ==> #[trigger] b.node_vec(i) == a.node_vec(i)
    &&& forall|i: int|
        0 <= i < a.n() ==> #[trigger] b.nodes@[i].neighbors@.len()
            == a.nodes@[i].neighbors@.len()
}

/// Replacing one neighbor list with in-capacity, valid edges keeps the index
/// well-formed.
proof fn lemma_wf_after_set_list(a: HNSW, b: HNSW, i: int, level: int, lst: Seq<Neighbor>)
    requires
        a.wf(),
        0 <= i < a.n(),
        0 <= level <= a.node_level(i),
        same_graph_shape(a, b),
        forall|k: int| 0 <= k < a.n() && k != i ==> b.nodes@[k] == a.nodes@[k],
        forall|l: int|
            0 <= l < a.nodes@[i].neighbors@.len() && l != level ==> #[trigger] b.nodes@[i].neighbors@[l]
                == a.nodes@[i].neighbors@[l],
        b.nbrs(i, level) == lst,
        lst.len() <= a.cap(level),
        forall|j: int| 0 <= j < lst.len() ==> a.edge_ok(i, level, #[trigger] lst[j]),
    ensures
        b.wf(),
{
    assert forall|k: int| 0 <= k < b.n() implies b.node_ok(k) by {
        assert(a.node_ok(k));
        assert(b.node_level(k) == a.node_level(k));
        assert(b.node_vec(k) == a.node_vec(k));
        assert(b.nodes@[k].level == a.nodes@[k].level);
        assert(a.nodes@[k].neighbors@.len() == a.nodes@[k].level + 1);
        assert forall|l: int| 0 <= l <= b.nodes@[k].level implies #[trigger] b.nbrs(k, l) == (
        if k == i && l == level {
            lst
        } else {
            a.nbrs(k, l)
        }) by {
            if k == i && l == level {
            } else if k == i {
                assert(b.nodes@[i].neighbors@[l] == a.nodes@[i].neighbors@[l]);
            } else {
                assert(b.nodes@[k] == a.nodes@[k]);
            }
        }
        assert forall|l: int| 0 <= l <= b.nodes@[k].level implies #[trigger] b.nbrs(k, l).len()
            <= b.cap(l) by {
            if k == i && l == level {
            } else {
                assert(a.nbrs(k, l).len() <= a.cap(l));
            }
        }
        assert forall|l: int, j: int|
            0 <= l <= b.nodes@[k].level && 0 <= j < b.nbrs(k, l).len() implies b.edge_ok(
            k,
            l,
            #[trigger] b.nbrs(k, l)[j],
        ) by {
            let e = b.nbrs(k, l)[j];
            if k == i && l == level {
                assert(a.edge_ok(i, level, lst[j]));
            } else {
                assert(e == a.nbrs(k, l)[j]);
                assert(a.edge_ok(k, l, a.nbrs(k, l)[j]));
            }
            assert(b.node_vec(k) == a.node_vec(k));
            assert(b.node_vec(e.id as int) == a.node_vec(e.id as int));
            assert(b.node_level(e.id as int) == a.node_level(e.id as int));
        }
    }
}

/// The shape relation chains.
proof fn lemma_shape_trans(a: HNSW, b: HNSW, c: HNSW)
    requires
        same_graph_shape(a, b),
        same_graph_shape(b, c),
    ensures
        same_graph_shape(a, c),
{
    assert forall|i: int| 0 <= i < a.n() implies #[trigger] c.node_level(i) == a.node_level(i)
        && c.node_vec(i) == a.node_vec(i) && c.nodes@[i].neighbors@.len()
        == a.nodes@[i].neighbors@.len() by {
        assert(b.node_level(i) == a.node_level(i));
        assert(b.node_vec(i) == a.node_vec(i));
        assert(b.nodes@[i].neighbors@.len() == a.nodes@[i].neighbors@.len());
        assert(c.node_level(i) == b.node_level(i));
        assert(c.node_vec(i) == b.node_vec(i));
        assert(c.nodes@[i].neighbors@.len() == b.nodes@[i].neighbors@.len());
    }
}

/// Search-result facts carry across shape-preserving re-linking.
proof fn lemma_result_ok_shape(a: HNSW, b: HNSW, q: Seq<i64>, level: int, e: Neighbor)
    requires
        same_graph_shape(a, b),
        a.result_ok(q, level, e),
    ensures
        b.result_ok(q, level, e),
{
    assert(b.node_vec(e.id as int) == a.node_vec(e.id as int));
    assert(b.node_level(e.id as int) == a.node_level(e.id as int));
}

/// Edge facts carry across shape-preserving re-linking.
proof fn lemma_edge_ok_shape(a: HNSW, b: HNSW, i: int, l: int, e: Neighbor)
    requires
        same_graph_shape(a, b),
        0 <= i < a.n(),
        a.edge_ok(i, l, e),
    ensures
        b.edge_ok(i, l, e),
{
    assert(b.node_vec(i) == a.node_vec(i));
    assert(b.node_vec(e.id as int) == a.node_vec(e.id as int));
    assert(b.node_level(e.id as int) == a.node_level(e.id as int));
}

/// Appending a fresh node with empty neighbor lists keeps the index
/// well-formed, provided the entry point moves to it exactly when its layer
/// tops the previous maximum.
proof fn lemma_wf_after_push_node(a: HNSW, b: HNSW, lev: int)
    requires
        a.wf(),
        a.n() < 0xffffffff,
        0 <= lev <= a.max_level,
        b.nodes@.len() == a.nodes@.len() + 1,
        forall|k: int| 0 <= k < a.n() ==> b.nodes@[k] == a.nodes@[k],
        b.nodes@[a.n()].level == lev,
        b.nodes@[a.n()].neighbors@.len() == lev + 1,
        forall|l: int| 0 <= l <= lev ==> #[trigger] b.nbrs(a.n(), l).len() == 0,
        b.nodes@[a.n()].p@.len() == a.dims,
        coords_ok(b.nodes@[a.n()].p@),
        b.m == a.m,
        b.ef_construction == a.ef_construction,
        b.ef_search == a.ef_search,
        b.max_level == a.max_level,
        b.dims == a.dims,
        if a.n() == 0 || lev > a.max_layer {
            b.enter_point == a.n() && b.max_layer == lev
        } else {
            b.enter_point == a.enter_point && b.max_layer == a.max_layer
        },
    ensures
        b.wf(),
{
    assert forall|k: int| 0 <= k < b.n() implies b.node_ok(k) by {
        if k < a.n() {
            assert(a.node_ok(k));
            assert(b.nodes@[k] == a.nodes@[k]);
            assert forall|l: int| 0 <= l <= b.nodes@[k].level implies #[trigger] b.nbrs(k, l)
                == a.nbrs(k, l) by {}
            assert forall|l: int| 0 <= l <= b.nodes@[k].level implies #[trigger] b.nbrs(
                k,
                l,
            ).len() <= b.cap(l) by {
                assert(a.nbrs(k, l).len() <= a.cap(l));
            }
            assert forall|l: int, j: int|
                0 <= l <= b.nodes@[k].level && 0 <= j < b.nbrs(k, l).len() implies b.edge_ok(
                k,
                l,
                #[trigger] b.nbrs(k, l)[j],
            ) by {
                assert(b.nbrs(k, l)[j] == a.nbrs(k, l)[j]);
                assert(a.edge_ok(k, l, a.nbrs(k, l)[j]));
                let e = b.nbrs(k, l)[j];
                assert(b.node_vec(k) == a.node_vec(k));
                assert(b.node_vec(e.id as int) == a.node_vec(e.id as int));
                assert(b.node_level(e.id as int) == a.node_level(e.id as int));
            }
        } else {
            assert(k == a.n());
        }
    }
}

impl HNSW {
    /// Overwrites node `i`'s neighbor list at one layer, touching nothing
    /// else.
    fn set_list(&mut self, i: usize, level: usize, lst: Vec<Neighbor>)
        requires
            (i as int) < old(self).nodes@.len(),
            (level as int) < old(self).nodes@[i as int].neighbors@.len(),
        ensures
            final(self).nodes@.len() == old(self).nodes@.len(),
            forall|k: int|
                0 <= k < old(self).nodes@.len() && k != i ==> final(self).nodes@[k] == old(
                    self,
                ).nodes@[k],
            final(self).nodes@[i as int].level == old(self).nodes@[i as int].level,
            final(self).nodes@[i as int].p == old(self).nodes@[i as int].p,
            final(self).nodes@[i as int].neighbors@.len() == old(
                self,
            ).nodes@[i as int].neighbors@.len(),
            forall|l: int|
                0 <= l < old(self).nodes@[i as int].neighbors@.len() && l != level
                    ==> #[trigger] final(self).nodes@[i as int].neighbors@[l] == old(
                    self,
                ).nodes@[i as int].neighbors@[l],
            final(self).nodes@[i as int].neighbors@[level as int] == lst,
            final(self).enter_point == old(self).enter_point,
            final(self).max_layer == old(self).max_layer,
            final(self).m == old(self).m,
            final(self).ef_construction == old(self).ef_construction,
            final(self).ef_search == old(self).ef_search,
            final(self).max_level == old(self).max_level,
            final(self).dims == old(self).dims,
    {
        self.nodes[i].neighbors[level] = lst;
    }

    /// Adds the back edge `nb` to node `sid`'s list at `level`; where the
    /// list would exceed the layer capacity, re-runs the diversity heuristic
    /// over the enlarged list to prune it back to capacity.
    pub fn connect_backlink(&mut self, sid: usize, level: usize, nb: Neighbor)
        requires
            old(self).wf(),
            (sid as int) < old(self).n(),
            level <= old(self).node_level(sid as int),
            old(self).edge_ok(sid as int, level as int, nb),
        ensures
            final(self).wf(),
            same_graph_shape(*old(self), *final(self)),
            forall|k: int|
                0 <= k < old(self).n() && k != sid ==> final(self).nodes@[k] == old(
                    self,
                ).nodes@[k],
            forall|l: int|
                0 <= l <= old(self).node_level(sid as int) && l != level ==> #[trigger] final(self).nbrs(sid as int, l) == old(self).nbrs(sid as int, l),
            old(self).nbrs(sid as int, level as int).len() < old(self).cap(level as int) ==> final(self).nbrs(sid as int, level as int) == old(self).nbrs(sid as int, level as int).push(nb),
            old(self).nbrs(sid as int, level as int).len() >= old(self).cap(level as int) ==> {
                &&& final(self).nbrs(sid as int, level as int).len() == old(self).cap(level as int)
                &&& forall|t: int|
                    0 <= t < final(self).nbrs(sid as int, level as int).len() ==> old(self).nbrs(
                        sid as int,
                        level as int,
                    ).push(nb).contains(#[trigger] final(self).nbrs(sid as int, level as int)[t])
            },
    {
        let cap: usize = if level == 0 {
            2 * self.m
        } else {
            self.m
        };
        proof {
            assert(self.node_ok(sid as int));
        }
        let mut lst = copy_neighbors(&self.nodes[sid].neighbors[level]);
        let ghost pre = lst@;
        lst.push(nb);
        proof {
            assert forall|j: int| 0 <= j < lst@.len() implies old(self).edge_ok(
                sid as int,
                level as int,
                #[trigger] lst@[j],
            ) by {
                if j < pre.len() {
                    assert(lst@[j] == old(self).nbrs(sid as int, level as int)[j]);
                }
            }
        }
        let newlst = if lst.len() > cap {
            let pruned = self.get_neighbors_by_heuristic(&lst, cap);
            proof {
                assert forall|j: int| 0 <= j < pruned@.len() implies old(self).edge_ok(
                    sid as int,
                    level as int,
                    #[trigger] pruned@[j],
                ) by {
                    assert(lst@.contains(pruned@[j]));
                    let w = choose|w: int| 0 <= w < lst@.len() && lst@[w] == pruned@[j];
                    assert(old(self).edge_ok(sid as int, level as int, lst@[w]));
                }
            }
            pruned
        } else {
            lst
        };
        let ghost newseq = newlst@;
        let ghost a = *self;
        self.set_list(sid, level, newlst);
        proof {
            lemma_wf_after_set_list(a, *self, sid as int, level as int, newseq);
        }
    }

    /// Inserts `q` as a new node at layer `level`: greedily descends from the
    /// entry point through the layers above `level` keeping one closest
    /// candidate per layer, then from `min(level, previous maximum)` down to
    /// the ground layer runs a beam search of width `ef_construction`,
    /// diversity-prunes the candidates to at most `m` neighbors, and connects
    /// the new node bidirectionally, pruning any neighbor list that exceeds
    /// its layer capacity. Moves the entry point to the new node when `level`
    /// tops the previous maximum.
    ///
    /// The new node's id is the count of nodes inserted before it, so ids are
    /// issued strictly increasing from zero.
    #[verifier::loop_isolation(false)]
    pub fn insert_at_level(&mut self, q: Vec<i64>, level: usize) -> (id: u64)
        requires
            old(self).wf(),
            coords_ok(q@),
            q@.len() == old(self).dims,
            level <= old(self).max_level,
            old(self).n() < 0xffffffff,
        ensures
            final(self).wf(),
            final(self).n() == old(self).n() + 1,
            id as int == old(self).n(),
            final(self).node_vec(id as int) == q@,
            final(self).node_level(id as int) == level,
            forall|i: int|
                0 <= i < old(self).n() ==> #[trigger] final(self).node_vec(i) == old(
                    self,
                ).node_vec(i) && final(self).node_level(i) == old(self).node_level(i),
            final(self).m == old(self).m,
            final(self).ef_construction == old(self).ef_construction,
            final(self).ef_search == old(self).ef_search,
            final(self).max_level == old(self).max_level,
            final(self).dims == old(self).dims,
            final(self).max_layer == if old(self).n() == 0 || level > old(self).max_layer {
                level as int
            } else {
                old(self).max_layer as int
            },
            final(self).enter_point as int == if old(self).n() == 0 || level > old(
                self,
            ).max_layer {
                old(self).n()
            } else {
                old(self).enter_point as int
            },
            // the connections are bidirectional: every neighbor the new node
            // links to holds the back edge, unless its own list was pruned to
            // the layer capacity
            forall|l: int, j: int|
                0 <= l <= level && 0 <= j < final(self).nbrs(id as int, l).len() ==> backlinked(
                    *final(self),
                    id as int,
                    l,
                    (#[trigger] final(self).nbrs(id as int, l)[j]).id as int,
                ),
    {
        let id = self.nodes.len();
        let first = id == 0;
        let old_max = self.max_layer;
        let ep0 = self.enter_point;
        let ghost qv = q@;
        let mut nblists: Vec<Vec<Neighbor>> = Vec::new();
        let mut li: usize = 0;
        while li < level + 1
            invariant
                nblists@.len() == li <= level + 1,
                forall|l: int| 0 <= l < li ==> #[trigger] nblists@[l]@.len() == 0,
            decreases level + 1 - li,
        {
            nblists.push(Vec::new());
            li += 1;
        }
        self.nodes.push(Node { level, neighbors: nblists, p: q });
        if first || level > old_max {
            self.enter_point = id;
            self.max_layer = level;
        }
        proof {
            lemma_wf_after_push_node(*old(self), *self, level as int);
            assert(self.node_vec(id as int) == qv);
            assert forall|l: int| 0 <= l <= level implies self.nbrs(id as int, l).len() == 0 by {
                assert(self.nodes@[id as int].neighbors@[l] == nblists@[l]);
            }
        }
        if first {
            return 0;
        }
        let ghost base = *self;
        proof {
            assert(self.node_ok(id as int));
            assert(self.node_ok(ep0 as int));
            assert(self.nodes@[ep0 as int] == old(self).nodes@[ep0 as int]);
        }
        let qd = distance(&self.nodes[id].p, &self.nodes[ep0].p);
        let mut ep = Neighbor { id: ep0 as u64, d: qd };
        let mut lc: usize = old_max;
        while lc > level
            invariant
                lc <= old_max,
                self.result_ok(qv, lc as int, ep),
            decreases lc,
        {
            ep = self.greedy_at_layer(&self.nodes[id].p, ep, lc);
            lc -= 1;
        }
        let mut done = false;
        while !done
            invariant
                self.wf(),
                same_graph_shape(base, *self),
                lc <= level,
                lc <= old_max,
                self.result_ok(qv, lc as int, ep),
                // layers above the current one already hold their back edges
                forall|l: int, j: int|
                    lc < l <= level && 0 <= j < self.nbrs(id as int, l).len() ==> backlinked(
                        *self,
                        id as int,
                        l,
                        (#[trigger] self.nbrs(id as int, l)[j]).id as int,
                    ),
                done ==> forall|l: int, j: int|
                    0 <= l <= level && 0 <= j < self.nbrs(id as int, l).len() ==> backlinked(
                        *self,
                        id as int,
                        l,
                        (#[trigger] self.nbrs(id as int, l)[j]).id as int,
                    ),
            decreases lc, (if done {
                0int
            } else {
                1int
            }),
        {
            proof {
                assert(base.node_vec(id as int) == qv);
                assert(self.node_vec(id as int) == qv);
                assert(self.node_ok(id as int));
            }
            let results = self.search_at_layer(&self.nodes[id].p, self.ef_construction, ep, lc);
            let selected = self.get_neighbors_by_heuristic(&results, self.m);
            let mut nep = ep;
            if lc > 0 {
                let mi = min_index(&results);
                nep = results[mi];
            }
            let mut own: Vec<Neighbor> = Vec::new();
            let mut t: usize = 0;
            while t < selected.len()
                invariant
                    t <= selected@.len(),
                    own@.len() <= t,
                    forall|k: int|
                        0 <= k < own@.len() ==> self.edge_ok(id as int, lc as int, #[trigger]
                        own@[k]),
                decreases selected@.len() - t,
            {
                let s = selected[t];
                if s.id != id as u64 {
                    proof {
                        assert(results@.contains(s));
                        let w = choose|w: int| 0 <= w < results@.len() && results@[w] == s;
                        assert(self.result_ok(qv, lc as int, results@[w]));
                    }
                    own.push(s);
                }
                t += 1;
            }
            let own_links = copy_neighbors(&own);
            let ghost ownseq = own@;
            let ghost a0 = *self;
            proof {
                assert(self.node_ok(id as int));
            }
            self.set_list(id, lc, own);
            proof {
                lemma_wf_after_set_list(a0, *self, id as int, lc as int, ownseq);
                lemma_shape_trans(base, a0, *self);
                assert forall|l: int, j: int|
                    lc < l <= level && 0 <= j < self.nbrs(id as int, l).len() implies backlinked(
                    *self,
                    id as int,
                    l,
                    (#[trigger] self.nbrs(id as int, l)[j]).id as int,
                ) by {
                    assert(self.nbrs(id as int, l) == a0.nbrs(id as int, l));
                    assert(a0.node_ok(id as int));
                    let e = a0.nbrs(id as int, l)[j];
                    assert(a0.edge_ok(id as int, l, e));
                    assert(self.nodes@[e.id as int] == a0.nodes@[e.id as int]);
                    assert(self.nbrs(e.id as int, l) == a0.nbrs(e.id as int, l));
                    assert(backlinked(a0, id as int, l, e.id as int));
                }
            }
            let mut t2: usize = 0;
            while t2 < own_links.len()
                invariant
                    t2 <= own_links@.len(),
                    self.wf(),
                    same_graph_shape(base, *self),
                    forall|k: int|
                        0 <= k < own_links@.len() ==> self.edge_ok(id as int, lc as int, #[trigger]
                        own_links@[k]),
                    self.nbrs(id as int, lc as int) == ownseq,
                    forall|u: int|
                        0 <= u < t2 ==> backlinked(
                            *self,
                            id as int,
                            lc as int,
                            (#[trigger] own_links@[u]).id as int,
                        ),
                    forall|l: int, j: int|
                        lc < l <= level && 0 <= j < self.nbrs(id as int, l).len() ==> backlinked(
                            *self,
                            id as int,
                            l,
                            (#[trigger] self.nbrs(id as int, l)[j]).id as int,
                        ),
                decreases own_links@.len() - t2,
            {
                let s = own_links[t2];
                proof {
                    assert(self.edge_ok(id as int, lc as int, s));
                    lemma_dist2_sym(
                        self.node_vec(s.id as int),
                        self.node_vec(id as int),
                        self.dims as int,
                    );
                    assert(self.node_ok(s.id as int));
                    assert(self.node_ok(id as int));
                }
                let ghost a1 = *self;
                self.connect_backlink(s.id as usize, lc, Neighbor { id: id as u64, d: s.d });
                proof {
                    lemma_shape_trans(base, a1, *self);
                    assert forall|k: int| 0 <= k < own_links@.len() implies self.edge_ok(
                        id as int,
                        lc as int,
                        #[trigger] own_links@[k],
                    ) by {
                        lemma_edge_ok_shape(a1, *self, id as int, lc as int, own_links@[k]);
                    }
                    assert(self.nodes@[id as int] == a1.nodes@[id as int]);
                    assert(self.nbrs(id as int, lc as int) == ownseq);
                    // the node just linked answers the back edge; earlier
                    // ones keep theirs, their lists untouched this step
                    assert forall|u: int| 0 <= u < t2 + 1 implies backlinked(
                        *self,
                        id as int,
                        lc as int,
                        (#[trigger] own_links@[u]).id as int,
                    ) by {
                        let e = own_links@[u].id as int;
                        if e == s.id as int {
                            if a1.nbrs(e, lc as int).len() < a1.cap(lc as int) {
                                let nl = self.nbrs(e, lc as int);
                                assert(nl == a1.nbrs(e, lc as int).push(
                                    Neighbor { id: id as u64, d: s.d },
                                ));
                                assert(nl[nl.len() - 1].id == id as u64);
                            } else {
                                assert(self.nbrs(e, lc as int).len() == a1.cap(lc as int));
                            }
                        } else {
                            assert(self.nodes@[e] == a1.nodes@[e]);
                            assert(self.nbrs(e, lc as int) == a1.nbrs(e, lc as int));
                            assert(backlinked(a1, id as int, lc as int, e));
                        }
                    }
                    assert forall|l: int, j: int|
                        lc < l <= level && 0 <= j < self.nbrs(id as int, l).len() implies
                        backlinked(
                        *self,
                        id as int,
                        l,
                        (#[trigger] self.nbrs(id as int, l)[j]).id as int,
                    ) by {
                        assert(self.nbrs(id as int, l) == a1.nbrs(id as int, l));
                        assert(a1.node_ok(id as int));
                        let e = a1.nbrs(id as int, l)[j];
                        assert(a1.edge_ok(id as int, l, e));
                        if e.id as int == s.id as int {
                            assert(a1.node_level(e.id as int) >= l);
                            assert(self.nbrs(e.id as int, l) == a1.nbrs(e.id as int, l));
                        } else {
                            assert(self.nodes@[e.id as int] == a1.nodes@[e.id as int]);
                            assert(self.nbrs(e.id as int, l) == a1.nbrs(e.id as int, l));
                        }
                        assert(backlinked(a1, id as int, l, e.id as int));
                    }
                }
                t2 += 1;
            }
            proof {
                assert forall|l: int, j: int|
                    lc as int <= l <= level && 0 <= j < self.nbrs(id as int, l).len() implies
                    backlinked(
                    *self,
                    id as int,
                    l,
                    (#[trigger] self.nbrs(id as int, l)[j]).id as int,
                ) by {
                    if l == lc as int {
                        assert(self.nbrs(id as int, lc as int) == own_links@);
                        assert(backlinked(
                            *self,
                            id as int,
                            lc as int,
                            own_links@[j].id as int,
                        ));
                    }
                }
            }
            if lc == 0 {
                done = true;
                proof {
                    lemma_result_ok_shape(a0, *self, qv, lc as int, ep);
                }
            } else {
                proof {
                    lemma_result_ok_shape(a0, *self, qv, lc as int, nep);
                }
                ep = nep;
                lc -= 1;
            }
        }
        proof {
            assert(same_graph_shape(base, *self));
        }
        id as u64
    }

    /// An empty index with the given construction parameters.
    pub fn new(m: usize, ef_construction: usize, ef_search: usize, max_level: usize, dims: usize) -> (h: HNSW)
        requires
            1 <= m <= 0x10000,
            1 <= ef_construction <= 0x10000,
            1 <= ef_search <= 0x10000,
            max_level <= 64,
            1 <= dims <= MAX_DIMS,
        ensures
            h.wf(),
            h.n() == 0,
            h.m == m,
            h.ef_construction == ef_construction,
            h.ef_search == ef_search,
            h.max_level == max_level,
            h.dims == dims,
            h.max_layer == 0,
    {
        HNSW {
            nodes: Vec::new(),
            enter_point: 0,
            max_layer: 0,
            m,
            ef_construction,
            ef_search,
            max_level,
            dims,
        }
    }

    /// Nearest-neighbor query: greedy descent from the entry point to the
    /// ground layer, a beam search of width `max(k, ef_search)` there, then
    /// the `k` closest visited nodes by ascending distance, each scored with
    /// its true distance to the query and no id repeated. Succeeds exactly on
    /// a non-empty index and a query of the index's dimensionality.
    #[verifier::loop_isolation(false)]
    #[verifier::rlimit(50)]
    #[verifier::spinoff_prover]
    pub fn query(&self, q: &Vec<i64>, k: usize) -> (r: Result<Vec<Neighbor>, VBError>)
        requires
            self.wf(),
            coords_ok(q@),
        ensures
            self.n() == 0 ==> r == Err::<Vec<Neighbor>, VBError>(VBError::EmptyIndex),
            self.n() > 0 && q@.len() != self.dims ==> r == Err::<Vec<Neighbor>, VBError>(
                VBError::DimensionMismatch,
            ),
            self.n() > 0 && q@.len() == self.dims ==> r is Ok,
            match r {
                Ok(res) => {
                    &&& res@.len() <= k
                    &&& k >= 1 ==> res@.len() >= 1
                    &&& (res@.len() >= 1 ==> res@[0].d <= dist2(
                        q@,
                        self.node_vec(self.enter_point as int),
                    ))
                    &&& forall|i: int|
                        0 <= i < res@.len() ==> self.result_ok(q@, 0, #[trigger] res@[i])
                    &&& forall|i: int, j: int| 0 <= i < j < res@.len() ==> res@[i].d <= res@[j].d
                    &&& forall|i: int, j: int|
                        0 <= i < j < res@.len() ==> res@[i].id != res@[j].id
                    // the k closest of the beam's results were kept: a beam
                    // search cannot promise how many nodes it visits, so the
                    // count is relative to the beam, not to the node count
                    &&& exists|beam: Seq<Neighbor>| beam_answer(*self, q@, k as int, res@, beam)
                },
                Err(_) => true,
            },
    {
        if self.nodes.len() == 0 {
            return Err(VBError::EmptyIndex);
        }
        if q.len() != self.dims {
            return Err(VBError::DimensionMismatch);
        }
        let ep0 = self.enter_point;
        proof {
            assert(self.node_ok(ep0 as int));
        }
        let mut ep = Neighbor { id: ep0 as u64, d: distance(q, &self.nodes[ep0].p) };
        let mut lc: usize = self.max_layer;
        while lc > 0
            invariant
                lc <= self.max_layer,
                self.result_ok(q@, lc as int, ep),
                ep.d <= dist2(q@, self.node_vec(self.enter_point as int)),
            decreases lc,
        {
            ep = self.greedy_at_layer(q, ep, lc);
            lc -= 1;
        }
        let ef = if k > self.ef_search {
            k
        } else {
            self.ef_search
        };
        let mut cand = self.search_at_layer(q, ef, ep, 0);
        let ghost entry_d = dist2(q@, self.node_vec(self.enter_point as int));
        let ghost beam0 = cand@;
        let mut out: Vec<Neighbor> = Vec::new();
        while out.len() < k && cand.len() > 0
            invariant
                out@.len() <= k,
                k >= 1 ==> out@.len() + cand@.len() >= 1,
                out@.len() >= 1 ==> out@[0].d <= entry_d,
                out@.len() == 0 ==> exists|t: int|
                    0 <= t < cand@.len() && (#[trigger] cand@[t]).d <= entry_d,
                forall|i: int| 0 <= i < out@.len() ==> self.result_ok(q@, 0, #[trigger] out@[i]),
                forall|i: int| 0 <= i < cand@.len() ==> self.result_ok(q@, 0, #[trigger] cand@[i]),
                forall|i: int, j: int| 0 <= i < j < out@.len() ==> out@[i].d <= out@[j].d,
                forall|i: int, j: int| 0 <= i < j < out@.len() ==> out@[i].id != out@[j].id,
                forall|i: int, j: int| 0 <= i < j < cand@.len() ==> cand@[i].id != cand@[j].id,
                forall|i: int, j: int|
                    0 <= i < out@.len() && 0 <= j < cand@.len() ==> out@[i].id != cand@[j].id
                        && out@[i].d <= cand@[j].d,
                out@.len() + cand@.len() == beam0.len(),
                forall|i: int| 0 <= i < out@.len() ==> beam0.contains(#[trigger] out@[i]),
                forall|i: int| 0 <= i < cand@.len() ==> beam0.contains(#[trigger] cand@[i]),
                forall|j: int|
                    0 <= j < beam0.len() ==> out@.contains(#[trigger] beam0[j]) || cand@.contains(
                        beam0[j],
                    ),
            decreases cand@.len(),
        {
            let ghost pre = cand@;
            let ghost pre_out = out@;
            let e = extract_min(&mut cand);
            proof {
                let w = choose|w: int|
                    0 <= w < pre.len() && e == pre[w] && cand@ == #[trigger] pre.remove(w);
                assert forall|j: int| 0 <= j < cand@.len() implies e.id != (#[trigger] cand@[j]).id
                    && (forall|i: int| 0 <= i < out@.len() ==> out@[i].id != cand@[j].id) by {
                    if j < w {
                        assert(cand@[j] == pre[j]);
                    } else {
                        assert(cand@[j] == pre[j + 1]);
                    }
                }
            }
            out.push(e);
            proof {
                let w = choose|w: int|
                    0 <= w < pre.len() && e == pre[w] && cand@ == #[trigger] pre.remove(w);
                assert(out@ == pre_out.push(e));
                // every beam entry stays accounted for: the extracted one
                // moved into the answer, the rest stay pending
                assert forall|j: int| 0 <= j < beam0.len() implies out@.contains(
                    #[trigger] beam0[j],
                ) || cand@.contains(beam0[j]) by {
                    if pre_out.contains(beam0[j]) {
                        let u = choose|u: int|
                            0 <= u < pre_out.len() && pre_out[u] == beam0[j];
                        assert(out@[u] == beam0[j]);
                    } else {
                        let v = choose|v: int| 0 <= v < pre.len() && pre[v] == beam0[j];
                        if v == w {
                            assert(out@[out@.len() - 1] == beam0[j]);
                        } else if v < w {
                            assert(cand@[v] == beam0[j]);
                        } else {
                            assert(cand@[v - 1] == beam0[j]);
                        }
                    }
                }
                assert forall|i: int| 0 <= i < cand@.len() implies beam0.contains(
                    #[trigger] cand@[i],
                ) by {
                    if i < w {
                        assert(cand@[i] == pre[i]);
                    } else {
                        assert(cand@[i] == pre[i + 1]);
                    }
                }
            }
        }
        proof {
            // what stayed pending ranks no closer than anything kept: the
            // extraction took minima in order
            assert forall|j: int| 0 <= j < beam0.len() implies out@.contains(
                #[trigger] beam0[j],
            ) || (forall|i: int| 0 <= i < out@.len() ==> out@[i].d <= beam0[j].d) by {
                if !out@.contains(beam0[j]) {
                    assert(cand@.contains(beam0[j]));
                    let v = choose|v: int| 0 <= v < cand@.len() && cand@[v] == beam0[j];
                    assert forall|i: int| 0 <= i < out@.len() implies out@[i].d <= beam0[j].d by {
                        assert(out@[i].d <= cand@[v].d);
                    }
                }
            }
            if out@.len() < k {
                assert(cand@.len() == 0);
            }
            assert(least_of(beam0, k as int, out@));
            reveal(beam_answer);
            assert(beam_answer(*self, q@, k as int, out@, beam0));
            assert(exists|beam: Seq<Neighbor>| beam_answer(*self, q@, k as int, out@, beam));
        }
        Ok(out)
    }

    /// A new index holding this index's vectors followed by the other's,
    /// each re-inserted under its stored layer (capped at this index's
    /// `max_level`): ids stay in insertion order, with the other index's ids
    /// renumbered past this index's, and neighbor lists are re-linked across
    /// the merged id space. Construction parameters are taken from this
    /// index. Used by compaction; rejects indexes of differing
    /// dimensionality.
    #[verifier::loop_isolation(false)]
    pub fn merge(&self, other: &HNSW) -> (r: Result<HNSW, VBError>)
        requires
            self.wf(),
            other.wf(),
            self.n() + other.n() <= 0xffffffff,
        ensures
            self.dims != other.dims ==> r == Err::<HNSW, VBError>(VBError::DimensionMismatch),
            self.dims == other.dims ==> r is Ok,
            match r {
                Ok(h) => {
                    &&& h.wf()
                    &&& h.n() == self.n() + other.n()
                    &&& forall|i: int|
                        0 <= i < self.n() ==> #[trigger] h.node_vec(i) == self.node_vec(i)
                    &&& forall|i: int|
                        0 <= i < other.n() ==> #[trigger] h.node_vec(self.n() + i)
                            == other.node_vec(i)
                    &&& h.m == self.m
                    &&& h.dims == self.dims
                    &&& h.ef_search == self.ef_search
                    &&& h.ef_construction == self.ef_construction
                    &&& h.max_level == self.max_level
                },
                Err(_) => true,
            },
    {
        if self.dims != other.dims {
            return Err(VBError::DimensionMismatch);
        }
        let mut h = HNSW::new(self.m, self.ef_construction, self.ef_search, self.max_level, self.dims);
        let mut i: usize = 0;
        while i < self.nodes.len()
            invariant
                i <= self.n(),
                h.wf(),
                h.n() == i,
                forall|j: int| 0 <= j < i ==> #[trigger] h.node_vec(j) == self.node_vec(j),
                h.m == self.m,
                h.ef_construction == self.ef_construction,
                h.ef_search == self.ef_search,
                h.max_level == self.max_level,
                h.dims == self.dims,
            decreases self.n() - i,
        {
            proof {
                assert(self.node_ok(i as int));
            }
            let v = copy_i64s(&self.nodes[i].p);
            let _ = h.insert_at_level(v, self.nodes[i].level);
            i += 1;
        }
        let mut t: usize = 0;
        while t < other.nodes.len()
            invariant
                t <= other.n(),
                h.wf(),
                h.n() == self.n() + t,
                forall|j: int| 0 <= j < self.n() ==> #[trigger] h.node_vec(j) == self.node_vec(j),
                forall|j: int|
                    0 <= j < t ==> #[trigger] h.node_vec(self.n() + j) == other.node_vec(j),
                h.m == self.m,
                h.ef_construction == self.ef_construction,
                h.ef_search == self.ef_search,
                h.max_level == self.max_level,
                h.dims == self.dims,
            decreases other.n() - t,
        {
            proof {
                assert(other.node_ok(t as int));
            }
            let v = copy_i64s(&other.nodes[t].p);
            let mut lvl = other.nodes[t].level;
            if lvl > h.max_level {
                lvl = h.max_level;
            }
            let _ = h.insert_at_level(v, lvl);
            t += 1;
        }
        Ok(h)
    }

    /// Inserts a vector under a freshly drawn random layer. Rejects a vector
    /// whose dimensionality differs from the index's, leaving the index
    /// untouched.
    pub fn insert(&mut self, q: Vec<i64>) -> (r: Result<u64, VBError>)
        requires
            old(self).wf(),
            coords_ok(q@),
            old(self).n() < 0xffffffff,
        ensures
            final(self).wf(),
            q@.len() != old(self).dims ==> r == Err::<u64, VBError>(VBError::DimensionMismatch)
                && *final(self) == *old(self),
            q@.len() == old(self).dims ==> {
                &&& r == Ok::<u64, VBError>((old(self).n()) as u64)
                &&& final(self).n() == old(self).n() + 1
                &&& final(self).node_vec(old(self).n()) == q@
                &&& forall|i: int|
                    0 <= i < old(self).n() ==> #[trigger] final(self).node_vec(i) == old(
                        self,
                    ).node_vec(i)
                &&& final(self).m == old(self).m
                &&& final(self).dims == old(self).dims
                &&& final(self).ef_construction == old(self).ef_construction
                &&& final(self).ef_search == old(self).ef_search
                &&& final(self).max_level == old(self).max_level
                // bidirectional wiring: every neighbor the new node links to
                // holds the back edge, or its list sits at the layer capacity
                &&& forall|l: int, j: int|
                    0 <= l <= final(self).node_level(old(self).n()) && 0 <= j < final(self).nbrs(
                        old(self).n(),
                        l,
                    ).len() ==> backlinked(
                        *final(self),
                        old(self).n(),
                        l,
                        (#[trigger] final(self).nbrs(old(self).n(), l)[j]).id as int,
                    )
            },
    {
        if q.len() != self.dims {
            return Err(VBError::DimensionMismatch);
        }
        let lvl = self.get_random_level();
        let id = self.insert_at_level(q, lvl);
        Ok(id)
    }

    /// Diversity pruning over a candidate set: processes candidates closest
    /// first, keeps one only when it is closer to the query point than to
    /// every already-kept neighbor (so kept neighbors spread over distinct
    /// regions), then refills from the discarded ones, closest first, up to
    /// `max_count`.
    #[verifier::loop_isolation(false)]
    pub fn get_neighbors_by_heuristic(&self, candidates: &Vec<Neighbor>, max_count: usize) -> (res:
        Vec<Neighbor>)
        requires
            self.wf(),
            forall|k: int|
                0 <= k < candidates@.len() ==> ((#[trigger] candidates@[k]).id as int) < self.n(),
            1 <= max_count,
        ensures
            res@.len() == if candidates@.len() <= max_count {
                candidates@.len() as int
            } else {
                max_count as int
            },
            forall|k: int| 0 <= k < res@.len() ==> candidates@.contains(#[trigger] res@[k]),
            candidates@.len() > 0 ==> exists|x: Neighbor|
                #![auto]
                res@.contains(x) && candidates@.contains(x) && (forall|u: int|
                    0 <= u < candidates@.len() ==> x.d <= candidates@[u].d),
    {
        if candidates.len() <= max_count {
            let r = copy_neighbors(candidates);
            proof {
                if candidates@.len() > 0 {
                    let mi = lemma_seq_has_min(candidates@);
                    assert(r@.contains(candidates@[mi]));
                }
            }
            return r;
        }
        let mut w = copy_neighbors(candidates);
        let mut result: Vec<Neighbor> = Vec::new();
        let mut discarded: Vec<Neighbor> = Vec::new();
        // the rank-least candidate is always kept: nothing is selected yet,
        // so the diversity test cannot reject it
        let first = extract_min(&mut w);
        result.push(first);
        proof {
            assert(candidates@.contains(first));
        }
        while w.len() > 0 && result.len() < max_count
            invariant
                result@.len() + discarded@.len() + w@.len() == candidates@.len(),
                1 <= result@.len() <= max_count,
                result@[0] == first,
                candidates@.contains(first),
                forall|u: int| 0 <= u < candidates@.len() ==> first.d <= candidates@[u].d,
                forall|k: int| 0 <= k < w@.len() ==> candidates@.contains(#[trigger] w@[k]),
                forall|k: int| 0 <= k < result@.len() ==> candidates@.contains(#[trigger] result@[k]),
                forall|k: int|
                    0 <= k < discarded@.len() ==> candidates@.contains(#[trigger] discarded@[k]),
            decreases w@.len(),
        {
            let e = extract_min(&mut w);
            proof {
                let i = choose|i: int|
                    0 <= i < candidates@.len() && #[trigger] candidates@[i] == e;
                assert((e.id as int) < self.n());
                assert(self.node_ok(e.id as int));
            }
            let mut keep = true;
            let mut t: usize = 0;
            while t < result.len()
                invariant
                    t <= result@.len(),
                decreases result@.len() - t,
            {
                let r = result[t];
                proof {
                    let i = choose|i: int|
                        0 <= i < candidates@.len() && #[trigger] candidates@[i] == r;
                    assert((r.id as int) < self.n());
                    assert(self.node_ok(r.id as int));
                }
                let dr = distance(&self.nodes[e.id as usize].p, &self.nodes[r.id as usize].p);
                if e.d >= dr {
                    keep = false;
                    t = result.len();
                } else {
                    t += 1;
                }
            }
            if keep {
                result.push(e);
            } else {
                discarded.push(e);
            }
        }
        while result.len() < max_count && discarded.len() > 0
            invariant
                result@.len() + discarded@.len() + w@.len() == candidates@.len(),
                1 <= result@.len() <= max_count,
                result@[0] == first,
                candidates@.contains(first),
                forall|u: int| 0 <= u < candidates@.len() ==> first.d <= candidates@[u].d,
                w@.len() == 0 || result@.len() == max_count,
                forall|k: int| 0 <= k < result@.len() ==> candidates@.contains(#[trigger] result@[k]),
                forall|k: int|
                    0 <= k < discarded@.len() ==> candidates@.contains(#[trigger] discarded@[k]),
            decreases discarded@.len(),
        {
            let e = extract_min(&mut discarded);
            result.push(e);
        }
        proof {
            assert(result@.contains(first)) by {
                assert(result@[0] == first);
            }
        }
        result
    }
}

/// A nonempty list has a rank-least element.
proof fn lemma_seq_has_min(s: Seq<Neighbor>) -> (mi: int)
    requires
        s.len() > 0,
    ensures
        0 <= mi < s.len(),
        forall|u: int| 0 <= u < s.len() ==> s[mi].d <= s[u].d,
    decreases s.len(),
{
    if s.len() == 1 {
        0
    } else {
        let r = lemma_seq_has_min(s.drop_last());
        assert forall|u: int| 0 <= u < s.drop_last().len() implies s.drop_last()[r].d <= (
        #[trigger] s[u]).d by {
            assert(s.drop_last()[u] == s[u]);
        }
        if s.last().d < s[r].d {
            s.len() - 1
        } else {
            r
        }
    }
}

/// Relies on rand::random: one uniformly distributed 64-bit draw from the
/// thread-local generator; nothing is assumed of the value.
#[verifier::external_body]
fn random_u64() -> u64 {
    rand::random::<u64>()
}

impl HNSW {
    /// Draws a random layer for a new node. Each draw continues upward with
    /// probability `1/m`, so the level is geometrically distributed with
    /// `P(level >= k) = m^-k`, the distribution of `floor(-ln(U) / ln(m))`,
    /// capped at `max_level`.
    pub fn get_random_level(&self) -> (l: usize)
        requires
            self.params_ok(),
        ensures
            l <= self.max_level,
    {
        let mut level: usize = 0;
        loop
            invariant
                level <= self.max_level,
                self.params_ok(),
            decreases self.max_level - level,
        {
            if level >= self.max_level {
                return level;
            }
            let r = random_u64();
            if r % (self.m as u64) == 0 {
                level += 1;
            } else {
                return level;
            }
        }
    }
}

} // verus!
