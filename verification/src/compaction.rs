use crate::disk::merge_much;
use crate::disk::rows_distinct;
use crate::disk::stores_rows;
use crate::disk::RowV;
use crate::disk::VectorStore;
use crate::error::VBError;
use vstd::prelude::*;

verus! {

/// Count of segments at one level.
pub open spec fn count_at_level(list: Seq<VectorStore>, level: int) -> int
    decreases list.len(),
{
    if list.len() == 0 {
        0
    } else {
        count_at_level(list.drop_last(), level) + if list.last().level == level {
            1int
        } else {
            0int
        }
    }
}

/// Ghost image of a segment, as the planner's contracts compare segments.
pub ghost struct StoreV {
    pub level: nat,
    pub name: Seq<char>,
    pub rows: Seq<RowV>,
    pub file_size: u64,
    pub dims: nat,
}

pub open spec fn sview(s: VectorStore) -> StoreV {
    StoreV {
        level: s.level as nat,
        name: s.collection_name@,
        rows: s.rview(),
        file_size: s.file_size,
        dims: s.index.dims as nat,
    }
}

pub open spec fn sviews(list: Seq<VectorStore>) -> Seq<StoreV> {
    Seq::new(list.len(), |i: int| sview(list[i]))
}

/// What the planner promises of a plan `r` for the list at scan level `lvl`
/// with merge width `width`: as many level-`lvl` segments as the width
/// allows, each present in the list, smallest file sizes first, and no
/// planned segment larger than an unplanned segment of the level.
pub open spec fn is_plan(list: Seq<VectorStore>, lvl: int, width: int, r: Seq<VectorStore>) -> bool {
    &&& r.len() == if count_at_level(list, lvl) <= width {
        count_at_level(list, lvl)
    } else {
        width
    }
    &&& forall|t: int|
        0 <= t < r.len() ==> (#[trigger] r[t]).level == lvl && r[t].wf() && sviews(list).contains(
            sview(r[t]),
        )
    &&& forall|t: int, u: int| 0 <= t < u < r.len() ==> r[t].file_size <= r[u].file_size
    &&& forall|j: int|
        0 <= j < list.len() && list[j].level == lvl ==> sviews(r).contains(
            sview(#[trigger] list[j]),
        ) || (forall|t: int| 0 <= t < r.len() ==> (#[trigger] r[t]).file_size <= list[j].file_size)
}

/// A deep copy of a segment, with the identical ghost image.
pub fn copy_store(s: &VectorStore) -> (c: VectorStore)
    ensures
        sview(c) == sview(*s),
        c.level == s.level,
        c.file_size == s.file_size,
        c.index.dims == s.index.dims,
        s.wf() ==> c.wf(),
{
    let mut rows: Vec<crate::disk::Row> = Vec::new();
    let mut i: usize = 0;
    while i < s.rows.len()
        invariant
            rows@.len() == i <= s.rows@.len(),
            forall|t: int|
                0 <= t < i ==> crate::disk::rv(#[trigger] rows@[t]) == crate::disk::rv(
                    s.rows@[t],
                ),
        decreases s.rows@.len() - i,
    {
        let mut vec: Vec<i64> = Vec::new();
        let mut c: usize = 0;
        while c < s.rows[i].vec.len()
            invariant
                i < s.rows@.len(),
                c <= s.rows@[i as int].vec@.len(),
                vec@ == s.rows@[i as int].vec@.subrange(0, c as int),
            decreases s.rows@[i as int].vec@.len() - c,
        {
            vec.push(s.rows[i].vec[c]);
            c += 1;
        }
        let mut payload: Vec<u8> = Vec::new();
        let mut b: usize = 0;
        while b < s.rows[i].payload.len()
            invariant
                i < s.rows@.len(),
                b <= s.rows@[i as int].payload@.len(),
                payload@ == s.rows@[i as int].payload@.subrange(0, b as int),
            decreases s.rows@[i as int].payload@.len() - b,
        {
            payload.push(s.rows[i].payload[b]);
            b += 1;
        }
        proof {
            assert(vec@ =~= s.rows@[i as int].vec@);
            assert(payload@ =~= s.rows@[i as int].payload@);
        }
        rows.push(crate::disk::Row { id: s.rows[i].id, vec, payload });
        i += 1;
    }
    let index = s.index.copy_index();
    let mut name = String::new();
    name.append(s.collection_name.as_str());
    let c = VectorStore {
        level: s.level,
        collection_name: name,
        rows,
        index,
        file_size: s.file_size,
    };
    proof {
        assert(c.rview() =~~= s.rview());
        assert(sview(c) == sview(*s));
        if s.wf() {
            assert forall|t: int| 0 <= t < c.rows@.len() implies (#[trigger] c.rows@[t]).vec@.len()
                == c.index.dims && crate::metric::coords_ok(c.rows@[t].vec@) && c.index.node_vec(t)
                == c.rows@[t].vec@ by {
                assert(crate::disk::rv(c.rows@[t]) == crate::disk::rv(s.rows@[t]));
                assert(c.index.node_vec(t) == s.index.node_vec(t));
            }
            assert(rows_distinct(c.rview()));
        }
    }
    c
}

/// Removes and returns a segment of least file size.
fn extract_smallest(v: &mut Vec<VectorStore>) -> (e: VectorStore)
    requires
        old(v)@.len() > 0,
    ensures
        final(v)@.len() == old(v)@.len() - 1,
        exists|i: int|
            0 <= i < old(v)@.len() && e == old(v)@[i] && final(v)@ == #[trigger] old(v)@.remove(i),
        forall|j: int| 0 <= j < old(v)@.len() ==> e.file_size <= (#[trigger] old(v)@[j]).file_size,
        forall|j: int|
            0 <= j < final(v)@.len() ==> old(v)@.contains(#[trigger] final(v)@[j]) && e.file_size
                <= final(v)@[j].file_size,
{
    let mut best: usize = 0;
    let mut i: usize = 1;
    while i < v.len()
        invariant
            best < i <= v@.len(),
            forall|j: int|
                0 <= j < i ==> v@[best as int].file_size <= (#[trigger] v@[j]).file_size,
        decreases v@.len() - i,
    {
        if v[i].file_size < v[best].file_size {
            best = i;
        }
        i += 1;
    }
    let e = v.remove(best);
    proof {
        assert forall|j: int| 0 <= j < v@.len() implies old(v)@.contains(#[trigger] v@[j])
            && e.file_size <= v@[j].file_size by {
            if j < best {
                assert(v@[j] == old(v)@[j]);
            } else {
                assert(v@[j] == old(v)@[j + 1]);
            }
        }
    }
    e
}

/// The leveled-compaction planner: fixed per-level file-count thresholds and
/// merge widths, and a scan level walked round-robin.
pub struct Compaction {
    pub cur_level: usize,
    pub max_files_per_level: Vec<usize>,
    pub merge_files_per_level: Vec<usize>,
}

impl Compaction {
    pub open spec fn wf(self) -> bool {
        &&& self.max_files_per_level@.len() == 5
        &&& self.merge_files_per_level@.len() == 5
        &&& self.cur_level < 5
        &&& forall|i: int| 0 <= i < 5 ==> 1 <= #[trigger] self.merge_files_per_level@[i]
    }

    /// A planner at scan level zero with thresholds `[2, 2, 2, 2, 1]` and
    /// merge widths `[2, 2, 2, 2, 2]`.
    pub fn new() -> (c: Compaction)
        ensures
            c.wf(),
            c.cur_level == 0,
            c.max_files_per_level@ == seq![2usize, 2usize, 2usize, 2usize, 1usize],
            c.merge_files_per_level@ == seq![2usize, 2usize, 2usize, 2usize, 2usize],
    {
        let mut max_files_per_level: Vec<usize> = Vec::new();
        max_files_per_level.push(2);
        max_files_per_level.push(2);
        max_files_per_level.push(2);
        max_files_per_level.push(2);
        max_files_per_level.push(1);
        let mut merge_files_per_level: Vec<usize> = Vec::new();
        merge_files_per_level.push(2);
        merge_files_per_level.push(2);
        merge_files_per_level.push(2);
        merge_files_per_level.push(2);
        merge_files_per_level.push(2);
        proof {
            assert(max_files_per_level@ =~= seq![2usize, 2usize, 2usize, 2usize, 1usize]);
            assert(merge_files_per_level@ =~= seq![2usize, 2usize, 2usize, 2usize, 2usize]);
        }
        Compaction { cur_level: 0, max_files_per_level, merge_files_per_level }
    }

    /// True exactly when the count of segments at the scan level exceeds that
    /// level's threshold; a negative answer resets the scan level to zero
    /// (round-robin restart).
    #[verifier::loop_isolation(false)]
    pub fn need_table_compact(&mut self, list: &Vec<VectorStore>) -> (need: bool)
        requires
            old(self).wf(),
        ensures
            final(self).wf(),
            need == (count_at_level(list@, old(self).cur_level as int) > old(
                self,
            ).max_files_per_level@[old(self).cur_level as int]),
            need ==> *final(self) == *old(self),
            !need ==> final(self).cur_level == 0 && final(self).max_files_per_level == old(
                self,
            ).max_files_per_level && final(self).merge_files_per_level == old(
                self,
            ).merge_files_per_level,
    {
        let lvl = self.cur_level;
        let mut count: usize = 0;
        let mut i: usize = 0;
        while i < list.len()
            invariant
                i <= list@.len(),
                count == count_at_level(list@.take(i as int), lvl as int),
                count <= i,
            decreases list@.len() - i,
        {
            proof {
                assert(list@.take(i + 1).drop_last() =~= list@.take(i as int));
                assert(list@.take(i + 1).last() == list@[i as int]);
            }
            if list[i].level == lvl {
                count += 1;
            }
            i += 1;
        }
        proof {
            assert(list@.take(list@.len() as int) =~= list@);
        }
        let need = count > self.max_files_per_level[lvl];
        if !need {
            self.cur_level = 0;
        }
        need
    }

    /// The merge plan for the scan level: copies of segments whose level is
    /// the scan level, smallest file sizes first, at most the level's merge
    /// width many, and no planned segment is larger than an unplanned
    /// segment of that level.
    #[verifier::loop_isolation(false)]
    pub fn plan(&self, list: &Vec<VectorStore>) -> (r: Vec<VectorStore>)
        requires
            self.wf(),
            forall|i: int| 0 <= i < list@.len() ==> (#[trigger] list@[i]).wf(),
        ensures
            r@.len() == if count_at_level(list@, self.cur_level as int)
                <= self.merge_files_per_level@[self.cur_level as int] {
                count_at_level(list@, self.cur_level as int)
            } else {
                self.merge_files_per_level@[self.cur_level as int] as int
            },
            forall|t: int|
                0 <= t < r@.len() ==> (#[trigger] r@[t]).level == self.cur_level && r@[t].wf()
                    && sviews(list@).contains(sview(r@[t])),
            forall|t: int, u: int|
                0 <= t < u < r@.len() ==> r@[t].file_size <= r@[u].file_size,
            forall|j: int|
                0 <= j < list@.len() && list@[j].level == self.cur_level ==> sviews(r@).contains(
                    sview(#[trigger] list@[j]),
                ) || (forall|t: int|
                    0 <= t < r@.len() ==> (#[trigger] r@[t]).file_size <= list@[j].file_size),
            is_plan(
                list@,
                self.cur_level as int,
                self.merge_files_per_level@[self.cur_level as int] as int,
                r@,
            ),
    {
        let lvl = self.cur_level;
        let width = self.merge_files_per_level[lvl];
        let mut work: Vec<VectorStore> = Vec::new();
        let mut i: usize = 0;
        while i < list.len()
            invariant
                i <= list@.len(),
                work@.len() == count_at_level(list@.take(i as int), lvl as int),
                forall|t: int|
                    0 <= t < work@.len() ==> (#[trigger] work@[t]).level == lvl && work@[t].wf()
                        && sviews(list@).contains(sview(work@[t])),
                forall|j: int|
                    0 <= j < i && list@[j].level == lvl ==> sviews(work@).contains(
                        sview(#[trigger] list@[j]),
                    ),
            decreases list@.len() - i,
        {
            proof {
                assert(list@.take(i + 1).drop_last() =~= list@.take(i as int));
                assert(list@.take(i + 1).last() == list@[i as int]);
            }
            if list[i].level == lvl {
                let c = copy_store(&list[i]);
                let ghost pre = work@;
                work.push(c);
                proof {
                    assert(sviews(list@)[i as int] == sview(list@[i as int]));
                    assert(sviews(work@)[pre.len() as int] == sview(c));
                    assert forall|j: int|
                        0 <= j < i + 1 && list@[j].level == lvl implies sviews(work@).contains(
                        sview(#[trigger] list@[j]),
                    ) by {
                        if j < i {
                            let w = choose|w: int|
                                0 <= w < sviews(pre).len() && sviews(pre)[w] == sview(list@[j]);
                            assert(sviews(work@)[w] == sviews(pre)[w]);
                        }
                    }
                }
            }
            i += 1;
        }
        proof {
            assert(list@.take(list@.len() as int) =~= list@);
        }
        let total = work.len();
        let mut res: Vec<VectorStore> = Vec::new();
        while res.len() < width && work.len() > 0
            invariant
                res@.len() + work@.len() == total,
                res@.len() <= width,
                forall|t: int|
                    0 <= t < res@.len() ==> (#[trigger] res@[t]).level == lvl && res@[t].wf()
                        && sviews(list@).contains(sview(res@[t])),
                forall|t: int|
                    0 <= t < work@.len() ==> (#[trigger] work@[t]).level == lvl && work@[t].wf()
                        && sviews(list@).contains(sview(work@[t])),
                forall|t: int, u: int|
                    0 <= t < u < res@.len() ==> res@[t].file_size <= res@[u].file_size,
                forall|t: int, u: int|
                    0 <= t < res@.len() && 0 <= u < work@.len() ==> (#[trigger] res@[t]).file_size
                        <= (#[trigger] work@[u]).file_size,
                forall|j: int|
                    0 <= j < list@.len() && list@[j].level == lvl ==> sviews(res@).contains(
                        sview(#[trigger] list@[j]),
                    ) || sviews(work@).contains(sview(list@[j])),
            decreases work@.len(),
        {
            let ghost prew = work@;
            let ghost prer = res@;
            let e = extract_smallest(&mut work);
            proof {
                let w = choose|w: int|
                    0 <= w < prew.len() && e == prew[w] && work@ == #[trigger] prew.remove(w);
                assert(sviews(list@).contains(sview(prew[w])));
                assert forall|j: int|
                    0 <= j < list@.len() && list@[j].level == lvl implies sviews(
                    prer.push(e),
                ).contains(sview(#[trigger] list@[j])) || sviews(work@).contains(
                    sview(list@[j]),
                ) by {
                    if sviews(prer).contains(sview(list@[j]))  {
                        let u = choose|u: int|
                            0 <= u < prer.len() && sviews(prer)[u] == sview(list@[j]);
                        assert(sviews(prer.push(e))[u] == sview(list@[j]));
                    } else if sviews(prew).contains(sview(list@[j])) {
                        let u = choose|u: int|
                            0 <= u < prew.len() && sviews(prew)[u] == sview(list@[j]);
                        if u == w {
                            assert(sviews(prer.push(e))[prer.len() as int] == sview(e));
                        } else if u < w {
                            assert(work@[u] == prew[u]);
                            assert(sviews(work@)[u] == sview(list@[j]));
                        } else {
                            assert(work@[u - 1] == prew[u]);
                            assert(sviews(work@)[u - 1] == sview(list@[j]));
                        }
                    }
                }
                assert forall|t: int| 0 <= t < work@.len() implies (#[trigger] work@[t]).level
                    == lvl && work@[t].wf() && sviews(list@).contains(sview(work@[t])) by {
                    if t < w {
                        assert(work@[t] == prew[t]);
                    } else {
                        assert(work@[t] == prew[t + 1]);
                    }
                }
            }
            res.push(e);
        }
        res
    }

    /// Merges the planned segments into one new segment at the next level,
    /// `min(scan level + 1, 4)`, and advances the scan level round-robin. The
    /// inputs are untouched: on any failure nothing is deleted and the cycle
    /// retries later.
    pub fn compact(&mut self, collection_name: String, list: &Vec<VectorStore>) -> (r: Result<
        VectorStore,
        VBError,
    >)
        requires
            old(self).wf(),
            list@.len() >= 1,
            forall|i: int| 0 <= i < list@.len() ==> (#[trigger] list@[i]).wf(),
            forall|i: int|
                0 <= i < list@.len() ==> (#[trigger] list@[i]).index.dims == list@[0].index.dims,
            stores_rows(list@).len() <= 0xffffffff,
            rows_distinct(stores_rows(list@)),
        ensures
            final(self).wf(),
            final(self).cur_level == (old(self).cur_level + 1) % 5,
            final(self).max_files_per_level == old(self).max_files_per_level,
            final(self).merge_files_per_level == old(self).merge_files_per_level,
            r is Ok,
            match r {
                Ok(s) => {
                    &&& s.wf()
                    &&& s.rview() == stores_rows(list@)
                    &&& s.index.dims == list@[0].index.dims
                    &&& s.file_size as int == if crate::disk::sizes_sum(list@) <= u64::MAX as int {
                        crate::disk::sizes_sum(list@)
                    } else {
                        u64::MAX as int
                    }
                    &&& s.level == if old(self).cur_level + 1 < 4 {
                        old(self).cur_level + 1
                    } else {
                        4int
                    }
                    &&& s.collection_name@ == collection_name@
                },
                Err(_) => false,
            },
    {
        let level: usize = if self.cur_level + 1 < 4 {
            self.cur_level + 1
        } else {
            4
        };
        let merged = merge_much(list, collection_name, level);
        self.cur_level = (self.cur_level + 1) % 5;
        merged
    }
}

} // verus!
