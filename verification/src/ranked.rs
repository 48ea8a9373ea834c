use vstd::prelude::*;

verus! {

/// One scored query answer: a document id and its squared distance to the
/// query vector.
#[derive(Clone, Copy, Debug, PartialEq, Eq, Structural)]
pub struct RankedResult {
    pub id: u64,
    pub d: u64,
}

/// Strict ranking order: by distance ascending, ties broken by id, so any
/// two results with distinct ids are ordered.
pub open spec fn ranked_lt(a: RankedResult, b: RankedResult) -> bool {
    a.d < b.d || (a.d == b.d && a.id < b.id)
}

pub open spec fn ranked_le(a: RankedResult, b: RankedResult) -> bool {
    ranked_lt(a, b) || a == b
}

pub open spec fn distinct_ids(s: Seq<RankedResult>) -> bool {
    forall|i: int, j: int| 0 <= i < j < s.len() ==> s[i].id != s[j].id
}

/// What it means for `res` to be the exact top-k of the pool `all`: it holds
/// `min(k, all.len())` elements of the pool in strictly ascending rank
/// order, every pool element outside it ranks after everything in it, and a
/// result shorter than `k` exhausts the pool.
pub open spec fn is_top_k(all: Seq<RankedResult>, k: int, res: Seq<RankedResult>) -> bool {
    &&& res.len() == if all.len() <= k {
        all.len() as int
    } else {
        k
    }
    &&& forall|i: int| 0 <= i < res.len() ==> all.contains(#[trigger] res[i])
    &&& forall|i: int, j: int| 0 <= i < j < res.len() ==> ranked_lt(res[i], res[j])
    &&& forall|i: int|
        0 <= i < all.len() ==> res.contains(#[trigger] all[i]) || (forall|j: int|
            0 <= j < res.len() ==> ranked_lt(#[trigger] res[j], all[i]))
    &&& res.len() < k ==> forall|i: int| 0 <= i < all.len() ==> res.contains(#[trigger] all[i])
}

/// Removes and returns a rank-least element.
fn extract_ranked_min(v: &mut Vec<RankedResult>) -> (e: RankedResult)
    requires
        old(v)@.len() > 0,
    ensures
        final(v)@.len() == old(v)@.len() - 1,
        exists|i: int|
            0 <= i < old(v)@.len() && e == old(v)@[i] && final(v)@ == #[trigger] old(v)@.remove(i),
        forall|j: int| 0 <= j < old(v)@.len() ==> ranked_le(e, #[trigger] old(v)@[j]),
        forall|j: int|
            0 <= j < final(v)@.len() ==> old(v)@.contains(#[trigger] final(v)@[j]) && ranked_le(
                e,
                final(v)@[j],
            ),
{
    let mut best: usize = 0;
    let mut i: usize = 1;
    while i < v.len()
        invariant
            best < i <= v@.len(),
            forall|j: int| 0 <= j < i ==> ranked_le(v@[best as int], #[trigger] v@[j]),
        decreases v@.len() - i,
    {
        if v[i].d < v[best].d || (v[i].d == v[best].d && v[i].id < v[best].id) {
            best = i;
        }
        i += 1;
    }
    let e = v.remove(best);
    proof {
        assert(v@ == old(v)@.remove(best as int));
        assert forall|j: int| 0 <= j < v@.len() implies old(v)@.contains(#[trigger] v@[j])
            && ranked_le(e, v@[j]) by {
            if j < best {
                assert(v@[j] == old(v)@[j]);
            } else {
                assert(v@[j] == old(v)@[j + 1]);
            }
        }
    }
    e
}

/// The exact top-k of a pool of distinctly-identified results.
#[verifier::loop_isolation(false)]
#[verifier::rlimit(50)]
pub fn top_k(items: &Vec<RankedResult>, k: usize) -> (res: Vec<RankedResult>)
    requires
        distinct_ids(items@),
    ensures
        is_top_k(items@, k as int, res@),
        distinct_ids(res@),
{
    let mut work: Vec<RankedResult> = Vec::new();
    let mut i: usize = 0;
    while i < items.len()
        invariant
            i <= items@.len(),
            work@ == items@.subrange(0, i as int),
        decreases items@.len() - i,
    {
        work.push(items[i]);
        i += 1;
    }
    proof {
        assert(work@ =~= items@);
    }
    let mut res: Vec<RankedResult> = Vec::new();
    while res.len() < k && work.len() > 0
        invariant
            res@.len() + work@.len() == items@.len(),
            res@.len() <= k,
            forall|t: int| 0 <= t < res@.len() ==> items@.contains(#[trigger] res@[t]),
            forall|t: int| 0 <= t < work@.len() ==> items@.contains(#[trigger] work@[t]),
            forall|t: int, u: int| 0 <= t < u < res@.len() ==> ranked_lt(res@[t], res@[u]),
            forall|t: int, u: int| 0 <= t < u < res@.len() ==> res@[t].id != res@[u].id,
            forall|t: int, u: int| 0 <= t < u < work@.len() ==> work@[t].id != work@[u].id,
            forall|t: int, u: int|
                0 <= t < res@.len() && 0 <= u < work@.len() ==> (#[trigger] res@[t]).id != (
                #[trigger] work@[u]).id && ranked_lt(res@[t], work@[u]),
            forall|t: int|
                0 <= t < items@.len() ==> res@.contains(#[trigger] items@[t]) || work@.contains(
                    items@[t],
                ),
        decreases work@.len(),
    {
        let ghost pre = work@;
        let e = extract_ranked_min(&mut work);
        proof {
            let w = choose|w: int|
                0 <= w < pre.len() && e == pre[w] && work@ == #[trigger] pre.remove(w);
            assert forall|t: int| 0 <= t < work@.len() implies e.id != (#[trigger] work@[t]).id
                && ranked_lt(e, work@[t]) by {
                if t < w {
                    assert(work@[t] == pre[t]);
                } else {
                    assert(work@[t] == pre[t + 1]);
                }
            }
            assert forall|t: int|
                0 <= t < items@.len() && !res@.push(e).contains(#[trigger] items@[t])
                    implies work@.contains(items@[t]) by {
                assert(res@.contains(items@[t]) || pre.contains(items@[t]));
                if res@.contains(items@[t]) {
                    let u = choose|u: int| 0 <= u < res@.len() && res@[u] == items@[t];
                    assert(res@.push(e)[u] == items@[t]);
                    assert(false);
                } else {
                    let u = choose|u: int| 0 <= u < pre.len() && pre[u] == items@[t];
                    if u == w {
                        assert(res@.push(e)[res@.len() as int] == e);
                        assert(false);
                    } else if u < w {
                        assert(work@[u] == pre[u]);
                    } else {
                        assert(work@[u - 1] == pre[u]);
                    }
                }
            }
            assert forall|t: int| 0 <= t < res@.len() implies (#[trigger] res@[t]).id != e.id
                && ranked_lt(res@[t], e) by {
                assert(e == pre[w]);
                assert(res@[t].id != pre[w].id && ranked_lt(res@[t], pre[w]));
            }
        }
        res.push(e);
    }
    proof {
        assert forall|t: int|
            0 <= t < items@.len() && !res@.contains(#[trigger] items@[t]) implies (forall|j: int|
            0 <= j < res@.len() ==> ranked_lt(#[trigger] res@[j], items@[t])) by {
            assert(work@.contains(items@[t]));
            let u = choose|u: int| 0 <= u < work@.len() && work@[u] == items@[t];
            assert forall|j: int| 0 <= j < res@.len() implies ranked_lt(
                #[trigger] res@[j],
                items@[t],
            ) by {
                assert(ranked_lt(res@[j], work@[u]));
            }
        }
        if res@.len() < k {
            assert(work@.len() == 0);
        }
    }
    res
}

/// The top-k characterization pins the result: any two lists that both
/// satisfy it over one pool are equal. Together with the query contracts this
/// says the merged answer over compacted segments is the answer the inputs
/// gave.
pub proof fn lemma_top_k_unique(all: Seq<RankedResult>, k: int, r1: Seq<RankedResult>, r2: Seq<
    RankedResult,
>)
    requires
        distinct_ids(all),
        is_top_k(all, k, r1),
        is_top_k(all, k, r2),
    ensures
        r1 == r2,
{
    lemma_top_k_unique_upto(all, k, r1, r2, r1.len() as int);
    assert(r1 =~= r2);
}

proof fn lemma_top_k_unique_upto(all: Seq<RankedResult>, k: int, r1: Seq<RankedResult>, r2: Seq<
    RankedResult,
>, t: int)
    requires
        distinct_ids(all),
        is_top_k(all, k, r1),
        is_top_k(all, k, r2),
        0 <= t <= r1.len(),
    ensures
        forall|u: int| 0 <= u < t ==> r1[u] == r2[u],
    decreases t,
{
    if t > 0 {
        lemma_top_k_unique_upto(all, k, r1, r2, t - 1);
        let a = r1[t - 1];
        let b = r2[t - 1];
        if a != b {
            lemma_members_same_id_eq(all, a, b);
            lemma_top_k_not_before(all, k, r1, r2, t - 1);
            lemma_top_k_not_before(all, k, r2, r1, t - 1);
        }
    }
}

/// Two pool members with one id are one element.
proof fn lemma_members_same_id_eq(all: Seq<RankedResult>, a: RankedResult, b: RankedResult)
    requires
        distinct_ids(all),
        all.contains(a),
        all.contains(b),
    ensures
        a.id == b.id ==> a == b,
        a != b ==> ranked_lt(a, b) || ranked_lt(b, a),
{
    if a.id == b.id {
        let i = choose|i: int| 0 <= i < all.len() && all[i] == a;
        let j = choose|j: int| 0 <= j < all.len() && all[j] == b;
        if i != j {
            assert(all[i].id != all[j].id);
        }
    }
}

/// Where two top-k lists agree below `t`, the element at `t` of one cannot
/// rank strictly before the other's: it would be a pool element missing from
/// the other list that something kept there fails to outrank.
proof fn lemma_top_k_not_before(all: Seq<RankedResult>, k: int, r1: Seq<RankedResult>, r2: Seq<
    RankedResult,
>, t: int)
    requires
        distinct_ids(all),
        is_top_k(all, k, r1),
        is_top_k(all, k, r2),
        0 <= t < r1.len(),
        t < r2.len(),
        forall|u: int| 0 <= u < t ==> r1[u] == r2[u],
    ensures
        !ranked_lt(r1[t], r2[t]),
{
    if ranked_lt(r1[t], r2[t]) {
        let x = r1[t];
        assert(all.contains(x));
        if r2.contains(x) {
            let j = choose|j: int| 0 <= j < r2.len() && r2[j] == x;
            if j < t {
                assert(r1[j] == r2[j]);
                assert(ranked_lt(r1[j], r1[t]));
                lemma_ranked_lt_asym(x, x);
            } else if j == t {
                lemma_ranked_lt_asym(x, r2[t]);
            } else {
                assert(ranked_lt(r2[t], r2[j]));
                lemma_ranked_lt_asym(x, r2[t]);
            }
        } else {
            let i = choose|i: int| 0 <= i < all.len() && all[i] == x;
            assert(ranked_lt(r2[t], all[i]));
            lemma_ranked_lt_asym(x, r2[t]);
        }
    }
}

proof fn lemma_ranked_lt_asym(a: RankedResult, b: RankedResult)
    requires
        ranked_lt(a, b) || a == b,
    ensures
        !ranked_lt(b, a),
{
}

/// Pointwise bound: a top-k list over a pool ranks no worse, position by
/// position, than any strictly sorted selection from that pool.
proof fn lemma_top_k_pointwise(pool: Seq<RankedResult>, k: int, rm: Seq<RankedResult>, sub: Seq<
    RankedResult,
>, j: int)
    requires
        distinct_ids(pool),
        is_top_k(pool, k, rm),
        forall|i: int| 0 <= i < sub.len() ==> pool.contains(#[trigger] sub[i]),
        forall|i: int, t: int| 0 <= i < t < sub.len() ==> ranked_lt(sub[i], sub[t]),
        0 <= j < rm.len(),
        j < sub.len(),
    ensures
        ranked_le(rm[j], sub[j]),
    decreases j,
{
    if ranked_lt(sub[j], rm[j]) {
        let x = sub[j];
        assert(pool.contains(x));
        let i = choose|i: int| 0 <= i < pool.len() && pool[i] == x;
        if rm.contains(x) {
            let w = choose|w: int| 0 <= w < rm.len() && rm[w] == x;
            if w >= j {
                if w > j {
                    assert(ranked_lt(rm[j], rm[w]));
                }
                lemma_ranked_lt_asym(x, rm[j]);
            } else {
                lemma_top_k_pointwise(pool, k, rm, sub, w);
                assert(ranked_le(rm[w], sub[w]));
                assert(ranked_lt(sub[w], sub[j]));
                lemma_ranked_lt_asym(x, sub[w]);
            }
        } else {
            assert(ranked_lt(rm[j], pool[i]));
            lemma_ranked_lt_asym(x, rm[j]);
        }
    } else {
        lemma_members_same_id_eq(pool, sub[j], rm[j]);
        if sub[j] != rm[j] {
            assert(ranked_lt(rm[j], sub[j]) || ranked_lt(sub[j], rm[j]));
        }
    }
}

proof fn lemma_concat_contains(a: Seq<RankedResult>, b: Seq<RankedResult>, x: RankedResult)
    ensures
        (a + b).contains(x) <==> a.contains(x) || b.contains(x),
{
    if (a + b).contains(x) {
        let i = choose|i: int| 0 <= i < (a + b).len() && (a + b)[i] == x;
        if i < a.len() {
            assert(a[i] == x);
        } else {
            assert(b[i - a.len()] == x);
        }
    }
    if a.contains(x) {
        let i = choose|i: int| 0 <= i < a.len() && a[i] == x;
        assert((a + b)[i] == x);
    }
    if b.contains(x) {
        let i = choose|i: int| 0 <= i < b.len() && b[i] == x;
        assert((a + b)[a.len() + i] == x);
    }
}

/// Merging law: the top-k of two sources' top-k answers is the top-k of the
/// union of the sources. So fanning a query out to segments, taking each
/// segment's exact top-k, and merging loses nothing against querying one
/// merged segment.
pub proof fn lemma_top_k_merge(
    all1: Seq<RankedResult>,
    all2: Seq<RankedResult>,
    k: int,
    r1: Seq<RankedResult>,
    r2: Seq<RankedResult>,
    rm: Seq<RankedResult>,
)
    requires
        distinct_ids(all1 + all2),
        is_top_k(all1, k, r1),
        is_top_k(all2, k, r2),
        is_top_k(r1 + r2, k, rm),
        k >= 0,
    ensures
        is_top_k(all1 + all2, k, rm),
{
    let pool = r1 + r2;
    let alls = all1 + all2;
    assert forall|x: RankedResult| pool.contains(x) implies alls.contains(x) by {
        lemma_concat_contains(r1, r2, x);
        lemma_concat_contains(all1, all2, x);
        if r1.contains(x) {
            let i = choose|i: int| 0 <= i < r1.len() && r1[i] == x;
            assert(all1.contains(r1[i]));
        } else {
            let i = choose|i: int| 0 <= i < r2.len() && r2[i] == x;
            assert(all2.contains(r2[i]));
        }
    }
    assert(distinct_ids(all1)) by {
        assert forall|i: int, j: int| 0 <= i < j < all1.len() implies all1[i].id != all1[j].id by {
            assert(alls[i] == all1[i] && alls[j] == all1[j]);
        }
    }
    assert(distinct_ids(all2)) by {
        assert forall|i: int, j: int| 0 <= i < j < all2.len() implies all2[i].id != all2[j].id by {
            assert(alls[all1.len() + i] == all2[i] && alls[all1.len() + j] == all2[j]);
        }
    }
    assert(distinct_ids(pool)) by {
        assert forall|i: int, j: int| 0 <= i < j < pool.len() implies pool[i].id != pool[j].id by {
            lemma_pool_member(r1, r2, i);
            lemma_pool_member(r1, r2, j);
            let xi = pool[i];
            let xj = pool[j];
            assert(alls.contains(xi) && alls.contains(xj));
            if xi.id == xj.id {
                lemma_members_same_id_eq_weak(alls, xi, xj);
                if i < r1.len() && j < r1.len() {
                    assert(ranked_lt(r1[i], r1[j]));
                } else if i >= r1.len() && j >= r1.len() {
                    assert(ranked_lt(r2[i - r1.len()], r2[j - r1.len()]));
                } else {
                    assert(all1.contains(xi) && all2.contains(xj));
                    let u = choose|u: int| 0 <= u < all1.len() && all1[u] == xi;
                    let w = choose|w: int| 0 <= w < all2.len() && all2[w] == xj;
                    assert(alls[u] == xi && alls[all1.len() + w] == xj);
                    assert(xi.id != xj.id);
                }
            }
        }
    }
    // result length
    assert(rm.len() == if alls.len() <= k {
        alls.len() as int
    } else {
        k
    }) by {
        if pool.len() >= k {
        } else {
            assert(r1.len() < k && r2.len() < k);
            assert(r1.len() == all1.len() && r2.len() == all2.len());
        }
    }
    // membership
    assert forall|i: int| 0 <= i < rm.len() implies alls.contains(#[trigger] rm[i]) by {
        assert(pool.contains(rm[i]));
    }
    // exhaustion when short
    if rm.len() < k {
        assert(pool.len() < k || alls.len() <= k);
        assert forall|i: int| 0 <= i < alls.len() implies rm.contains(#[trigger] alls[i]) by {
            let x = alls[i];
            lemma_concat_contains(all1, all2, x);
            assert(pool.len() == rm.len());
            assert(r1.len() < k && r2.len() < k);
            if all1.contains(x) {
                let u = choose|u: int| 0 <= u < all1.len() && all1[u] == x;
                assert(r1.contains(all1[u]));
                lemma_concat_contains(r1, r2, x);
                let w = choose|w: int| 0 <= w < pool.len() && pool[w] == x;
                assert(rm.contains(pool[w]));
            } else {
                let u = choose|u: int| 0 <= u < all2.len() && all2[u] == x;
                assert(r2.contains(all2[u]));
                lemma_concat_contains(r1, r2, x);
                let w = choose|w: int| 0 <= w < pool.len() && pool[w] == x;
                assert(rm.contains(pool[w]));
            }
        }
    }
    // dominance
    assert forall|i: int|
        0 <= i < alls.len() && !rm.contains(#[trigger] alls[i]) implies (forall|j: int|
        0 <= j < rm.len() ==> ranked_lt(#[trigger] rm[j], alls[i])) by {
        let x = alls[i];
        lemma_concat_contains(all1, all2, x);
        if all1.contains(x) {
            lemma_merge_dominance_side(all1, all2, k, r1, r2, rm, x, true);
        } else {
            lemma_merge_dominance_side(all1, all2, k, r1, r2, rm, x, false);
        }
    }
}

proof fn lemma_pool_member(r1: Seq<RankedResult>, r2: Seq<RankedResult>, i: int)
    requires
        0 <= i < (r1 + r2).len(),
    ensures
        i < r1.len() ==> (r1 + r2)[i] == r1[i],
        i >= r1.len() ==> (r1 + r2)[i] == r2[i - r1.len()],
{
}

proof fn lemma_members_same_id_eq_weak(all: Seq<RankedResult>, a: RankedResult, b: RankedResult)
    requires
        distinct_ids(all),
        all.contains(a),
        all.contains(b),
        a.id == b.id,
    ensures
        a == b,
{
    let i = choose|i: int| 0 <= i < all.len() && all[i] == a;
    let j = choose|j: int| 0 <= j < all.len() && all[j] == b;
    if i != j {
        assert(all[i].id != all[j].id);
    }
}

proof fn lemma_merge_dominance_side(
    all1: Seq<RankedResult>,
    all2: Seq<RankedResult>,
    k: int,
    r1: Seq<RankedResult>,
    r2: Seq<RankedResult>,
    rm: Seq<RankedResult>,
    x: RankedResult,
    first: bool,
)
    requires
        distinct_ids(all1 + all2),
        distinct_ids(r1 + r2),
        is_top_k(all1, k, r1),
        is_top_k(all2, k, r2),
        is_top_k(r1 + r2, k, rm),
        k >= 0,
        first ==> all1.contains(x),
        !first ==> all2.contains(x),
        !rm.contains(x),
    ensures
        forall|j: int| 0 <= j < rm.len() ==> ranked_lt(#[trigger] rm[j], x),
{
    let pool = r1 + r2;
    let rs = if first {
        r1
    } else {
        r2
    };
    let alls_side = if first {
        all1
    } else {
        all2
    };
    let ix = choose|ix: int| 0 <= ix < alls_side.len() && alls_side[ix] == x;
    if rs.contains(x) {
        // x sits in the per-source answer, hence in the merge pool; the merged
        // answer omitted it, so everything kept outranks it.
        let w = choose|w: int| 0 <= w < rs.len() && rs[w] == x;
        assert(pool.contains(x)) by {
            if first {
                assert(pool[w] == x);
            } else {
                assert(pool[r1.len() + w] == x);
            }
        }
        let u = choose|u: int| 0 <= u < pool.len() && pool[u] == x;
        assert forall|j: int| 0 <= j < rm.len() implies ranked_lt(#[trigger] rm[j], x) by {
            assert(ranked_lt(rm[j], pool[u]));
        }
    } else {
        // x lost within its own source: everything that source kept outranks
        // it, and position by position the merged answer ranks no worse.
        assert(forall|j: int| 0 <= j < rs.len() ==> ranked_lt(#[trigger] rs[j], alls_side[ix]));
        assert forall|j: int| 0 <= j < rm.len() implies ranked_lt(#[trigger] rm[j], x) by {
            if j < rs.len() {
                assert forall|t: int| 0 <= t < rs.len() implies pool.contains(#[trigger] rs[t]) by {
                    if first {
                        assert(pool[t] == rs[t]);
                    } else {
                        assert(pool[r1.len() + t] == rs[t]);
                    }
                }
                lemma_top_k_pointwise(pool, k, rm, rs, j);
                assert(ranked_lt(rs[j], x));
                assert(ranked_le(rm[j], rs[j]));
            } else {
                // the merged answer is longer than this source's: then this
                // source returned fewer than k, so it kept its whole pool and
                // x would be in it.
                assert(rm.len() <= k);
                assert(rs.len() < k);
                assert(rs.contains(alls_side[ix]));
                assert(false);
            }
        }
    }
}

} // verus!
