use crate::helpe::{
    as_ints, ascending, in_order, is_order_of, key_le, lemma_permutation_multiset, pick, ranked,
    sort_order,
};
use crate::job::{share, ByteSteps, Job, JobSet};
use crate::jobset::{boxed_sum, get_total_originals_boxed};
use crate::model::{
    higher_than, lemma_empty_multiset, lemma_split_height, no_higher_than, all_within, is_load, lemma_rows_multiset_push, max_death, max_size, min_birth, min_size,
    proper_lifetimes, rows_multiset,
};
use std::collections::BTreeSet;
use std::sync::Arc;
use vstd::prelude::*;

verus! {

/// What is known of an instance without going through its jobs.
pub struct Info {
    /// The load: the most bytes live at one moment.
    pub load: Option<ByteSteps>,
    /// The least and the greatest size.
    pub min_max_height: Option<(ByteSteps, ByteSteps)>,
}

/// A set of jobs, not yet placed, with what is known of them as a whole.
pub struct Instance {
    pub jobs: JobSet,
    pub info: Info,
}

impl Info {
    /// What is known of `this` and `that` taken together: the heights.
    fn merge(this: &Instance, that: &Instance) -> (res: Self)
        requires
            this.wf(),
            that.wf(),
        ensures
            res.load is None,
            res.min_max_height == Some(
                (min_size(this.jobs@ + that.jobs@), max_size(this.jobs@ + that.jobs@)),
            ),
    {
        let (this_min, this_max) = this.min_max_height();
        let (that_min, that_max) = that.min_max_height();
        proof {
            crate::model::lemma_sizes_concat(this.jobs@, that.jobs@);
        }
        let min = if this_min < that_min {
            this_min
        } else {
            that_min
        };
        let max = if this_max > that_max {
            this_max
        } else {
            that_max
        };
        Info { load: None, min_max_height: Some((min, max)) }
    }

    /// Notes the load.
    pub fn set_load(&mut self, l: ByteSteps)
        ensures
            final(self).load == Some(l),
            final(self).min_max_height == old(self).min_max_height,
    {
        self.load = Some(l);
    }

    /// Notes the least and the greatest size.
    pub fn set_heights(&mut self, heights: (ByteSteps, ByteSteps))
        ensures
            final(self).min_max_height == Some(heights),
            final(self).load == old(self).load,
    {
        self.min_max_height = Some(heights);
    }
}

impl Instance {
    /// What is noted of the instance is true of its jobs.
    pub open spec fn wf(&self) -> bool {
        &&& self.info.min_max_height matches Some(h) ==> h == (
            min_size(self.jobs@),
            max_size(self.jobs@),
        )
        &&& self.info.load matches Some(l) ==> is_load(self.jobs@, l as nat)
    }

    /// An instance of the given jobs, with nothing noted yet.
    pub fn new(jobs: JobSet) -> (res: Self)
        ensures
            res.jobs == jobs,
            res.info.load is None,
            res.info.min_max_height is None,
            res.wf(),
    {
        Instance { jobs, info: Info { load: None, min_max_height: None } }
    }

    /// Says whether the boxes of the instance hold `target` jobs of the
    /// input.
    pub fn check_boxed_originals(&self, target: u32) -> (r: bool)
        ensures
            r == (target == if boxed_sum(self.jobs@) <= u32::MAX {
                boxed_sum(self.jobs@) as u32
            } else {
                u32::MAX
            }),
    {
        target == self.total_originals_boxed()
    }

    /// The earliest birth and the latest death.
    pub fn get_horizon(&self) -> (res: (ByteSteps, ByteSteps))
        ensures
            res == (min_birth(self.jobs@), max_death(self.jobs@)),
    {
        let mut smallest_birth: usize = usize::MAX;
        let mut largest_death: usize = 0;
        let mut i: usize = 0;
        while i < self.jobs.len()
            invariant
                i <= self.jobs.len(),
                smallest_birth == min_birth(self.jobs@.take(i as int)),
                largest_death == max_death(self.jobs@.take(i as int)),
            decreases self.jobs.len() - i,
        {
            proof {
                assert(self.jobs@.take(i + 1).drop_last() =~= self.jobs@.take(i as int));
            }
            if self.jobs[i].birth < smallest_birth {
                smallest_birth = self.jobs[i].birth;
            }
            if self.jobs[i].death > largest_death {
                largest_death = self.jobs[i].death;
            }
            i += 1;
        }
        proof {
            assert(self.jobs@.take(self.jobs.len() as int) =~= self.jobs@);
        }
        (smallest_birth, largest_death)
    }

    /// The least and the greatest size among the jobs.
    pub fn min_max_height(&self) -> (res: (ByteSteps, ByteSteps))
        requires
            self.wf(),
        ensures
            res == (min_size(self.jobs@), max_size(self.jobs@)),
    {
        match self.info.min_max_height {
            Some(v) => v,
            None => {
                let mut min: usize = usize::MAX;
                let mut max: usize = 0;
                let mut i: usize = 0;
                while i < self.jobs.len()
                    invariant
                        i <= self.jobs.len(),
                        min == min_size(self.jobs@.take(i as int)),
                        max == max_size(self.jobs@.take(i as int)),
                    decreases self.jobs.len() - i,
                {
                    proof {
                        assert(self.jobs@.take(i + 1).drop_last() =~= self.jobs@.take(i as int));
                    }
                    let curr = self.jobs[i].size;
                    if curr < min {
                        min = curr;
                    }
                    if curr > max {
                        max = curr;
                    }
                    i += 1;
                }
                proof {
                    assert(self.jobs@.take(self.jobs.len() as int) =~= self.jobs@);
                }
                (min, max)
            },
        }
    }

    /// Splits the instance in two: the jobs of size up to `ceil`, and the
    /// others. Both keep the order of the jobs.
    pub fn split_by_height(&self, ceil: ByteSteps) -> (res: (Self, Self))
        ensures
            res.0.jobs@ == self.jobs@.filter(crate::model::no_higher_than(ceil)),
            res.1.jobs@ == self.jobs@.filter(crate::model::higher_than(ceil)),
            res.0.wf(),
            res.1.wf(),
            res.0.info.min_max_height is None,
            res.1.info.min_max_height is None,
    {
        let mut small: JobSet = Vec::new();
        let mut high: JobSet = Vec::new();
        let mut i: usize = 0;
        proof {
            assert(self.jobs@.take(0) =~= Seq::<Arc<Job>>::empty());
            Seq::<Arc<Job>>::empty().lemma_filter_len(crate::model::no_higher_than(ceil));
            Seq::<Arc<Job>>::empty().lemma_filter_len(crate::model::higher_than(ceil));
        }
        while i < self.jobs.len()
            invariant
                i <= self.jobs.len(),
                small@ == self.jobs@.take(i as int).filter(crate::model::no_higher_than(ceil)),
                high@ == self.jobs@.take(i as int).filter(crate::model::higher_than(ceil)),
            decreases self.jobs.len() - i,
        {
            proof {
                assert(self.jobs@.take(i + 1) =~= self.jobs@.take(i as int).push(self.jobs@[i as int]));
                self.jobs@.take(i as int).lemma_filter_push(
                    self.jobs@[i as int],
                    crate::model::no_higher_than(ceil),
                );
                self.jobs@.take(i as int).lemma_filter_push(
                    self.jobs@[i as int],
                    crate::model::higher_than(ceil),
                );
            }
            if self.jobs[i].size <= ceil {
                small.push(share(&self.jobs[i]));
            } else {
                high.push(share(&self.jobs[i]));
            }
            i += 1;
        }
        proof {
            assert(self.jobs@.take(self.jobs.len() as int) =~= self.jobs@);
        }
        (Self::new(small), Self::new(high))
    }

    /// How many jobs of the input the boxes of the instance say they
    /// hold.
    pub fn total_originals_boxed(&self) -> (total: u32)
        ensures
            total == if boxed_sum(self.jobs@) <= u32::MAX {
                boxed_sum(self.jobs@) as u32
            } else {
                u32::MAX
            },
    {
        get_total_originals_boxed(&self.jobs)
    }

    /// The jobs of `self` followed by those of `other`, as a new
    /// instance. The heights of the whole are noted.
    pub fn merge_with(&self, other: Self) -> (res: Self)
        requires
            self.wf(),
            other.wf(),
        ensures
            res.jobs@ == self.jobs@ + other.jobs@,
            res.wf(),
            res.info.load is None,
            res.info.min_max_height is Some,
    {
        let info = Info::merge(self, &other);
        let mut all: JobSet = Vec::new();
        let mut i: usize = 0;
        while i < self.jobs.len()
            invariant
                i <= self.jobs.len(),
                all@ == self.jobs@.take(i as int),
            decreases self.jobs.len() - i,
        {
            all.push(share(&self.jobs[i]));
            proof {
                assert(self.jobs@.take(i + 1) =~= self.jobs@.take(i as int).push(self.jobs@[i as int]));
            }
            i += 1;
        }
        proof {
            assert(self.jobs@.take(self.jobs.len() as int) =~= self.jobs@);
        }
        let mut rest = other.jobs;
        all.append(&mut rest);
        Instance { jobs: all, info }
    }

    /// Adds the jobs of `other` behind those of `self`, and notes the
    /// heights of the whole.
    pub fn merge_via_ref(&mut self, other: Self)
        requires
            old(self).wf(),
            other.wf(),
        ensures
            final(self).jobs@ == old(self).jobs@ + other.jobs@,
            final(self).wf(),
            final(self).info.load is None,
            final(self).info.min_max_height is Some,
    {
        let info = Info::merge(self, &other);
        let mut rest = other.jobs;
        self.jobs.append(&mut rest);
        self.info = info;
    }
}

/// `lo` is the least and `hi` the greatest of the points.
pub open spec fn spans(pts: Set<usize>, lo: usize, hi: usize) -> bool {
    &&& pts.contains(lo)
    &&& pts.contains(hi)
    &&& forall|o: usize| #[trigger] pts.contains(o) ==> lo <= o <= hi
}

/// The job sets of the groups.
pub open spec fn groups_view(xs: Seq<(ByteSteps, Instance)>) -> Seq<Seq<Arc<Job>>> {
    Seq::new(xs.len(), |g: int| xs[g].1.jobs@)
}

/// The job is live at one of the critical points other than the first
/// and the last.
pub open spec fn live_inside(j: Job, pts: Seq<usize>) -> bool {
    exists|i: int| 1 <= i < pts.len() - 1 && j.live_at(#[trigger] pts[i] as int)
}

/// What splitting `jobs` around the critical points `pts` gives. The
/// first part holds jobs that are live at a critical point on the
/// inside. Each group of the second part goes with a stretch between two
/// neighbouring points, holds jobs that live within that stretch, and is
/// not empty; the groups come in the order of their stretches. Every job
/// is in the first part or in one group.
pub open spec fn is_split(
    jobs: Seq<Arc<Job>>,
    pts: Seq<usize>,
    live: Seq<Arc<Job>>,
    xs: Seq<(ByteSteps, Instance)>,
) -> bool {
    &&& live.to_multiset().add(rows_multiset(groups_view(xs))) == jobs.to_multiset()
    &&& forall|k: int| 0 <= k < live.len() ==> live_inside(*#[trigger] live[k], pts)
    &&& forall|g: int|
        0 <= g < xs.len() ==> (#[trigger] xs[g]).0 + 1 < pts.len() && xs[g].1.jobs.len() > 0
            && xs[g].1.wf() && all_within(xs[g].1.jobs@, pts[xs[g].0 as int], pts[xs[g].0 + 1])
    &&& forall|g: int, h: int| 0 <= g < h < xs.len() ==> (#[trigger] xs[g]).0 < (#[trigger] xs[h]).0
}

/// Splits the jobs around the critical points, which go upward. Takes
/// the jobs in the order of their births and goes through the stretches
/// between the points: a job that lives within the stretch joins its
/// group, a job live at the end of the stretch joins the live ones, and
/// with any other job the next stretch begins. What is left at the last
/// stretch is its group.
pub fn split_at_points(jobs: JobSet, pts: &Vec<ByteSteps>) -> (res: (JobSet, Vec<(ByteSteps, Instance)>))
    requires
        ascending(pts@),
        pts.len() >= 2,
        proper_lifetimes(jobs@),
        all_within(jobs@, pts[0], pts[pts.len() - 1]),
    ensures
        is_split(jobs@, pts@, res.0@, res.1@),
{
    let n = jobs.len();
    let mut keys: Vec<(usize, usize)> = Vec::new();
    let mut i: usize = 0;
    while i < n
        invariant
            i <= n,
            n == jobs.len(),
            keys.len() == i,
            forall|q: int| 0 <= q < i ==> #[trigger] keys[q] == (jobs[q].birth, 0usize),
        decreases n - i,
    {
        keys.push((jobs[i].birth, 0));
        i += 1;
    }
    let order = sort_order(&keys);
    let ghost perm = as_ints(order@);
    proof {
        assert forall|w: int| 0 <= w < n implies (#[trigger] order[w]) < n by {
            assert(perm[w] == order[w]);
        }
    }
    let m = pts.len();
    let mut live: JobSet = Vec::new();
    let mut xs: Vec<(ByteSteps, Instance)> = Vec::new();
    let mut group: JobSet = Vec::new();
    let mut idx: usize = 0;
    let mut q: usize = 0;
    proof {
        assert(pick(jobs@, perm.take(0)) =~= Seq::<Arc<Job>>::empty());
        assert(groups_view(xs@) =~= Seq::<Seq<Arc<Job>>>::empty());
        assert(live@.to_multiset().add(rows_multiset(groups_view(xs@))) =~= pick(
            jobs@,
            perm.take(0),
        ).to_multiset());
    }
    while q + 1 < m
        invariant
            q + 1 <= m,
            m == pts.len(),
            m >= 2,
            n == jobs.len(),
            idx <= n,
            ascending(pts@),
            proper_lifetimes(jobs@),
            all_within(jobs@, pts[0], pts[m - 1]),
            keys.len() == n,
            forall|w: int| 0 <= w < n ==> #[trigger] keys[w] == (jobs[w].birth, 0usize),
            is_order_of(keys@, order@),
            perm == as_ints(order@),
            forall|w: int| 0 <= w < n ==> (#[trigger] order[w]) < n,
            group.len() == 0,
            q + 1 == m ==> idx == n,
            forall|w: int| idx <= w < n ==> pts[q as int] <= jobs[#[trigger] order[w] as int].birth,
            live@.to_multiset().add(rows_multiset(groups_view(xs@))) == pick(
                jobs@,
                perm.take(idx as int),
            ).to_multiset(),
            forall|k: int| 0 <= k < live.len() ==> live_inside(*#[trigger] live[k], pts@),
            forall|g: int|
                0 <= g < xs.len() ==> (#[trigger] xs[g]).0 < q && xs[g].0 + 1 < m && xs[g].1.jobs.len()
                    > 0 && xs[g].1.wf() && all_within(
                    xs[g].1.jobs@,
                    pts[xs[g].0 as int],
                    pts[xs[g].0 + 1],
                ),
            forall|g: int, h: int|
                0 <= g < h < xs.len() ==> (#[trigger] xs[g]).0 < (#[trigger] xs[h]).0,
        decreases m - q,
    {
        let t_q = pts[q];
        let t_q_next = pts[q + 1];
        let last_stretch = q + 1 == m - 1;
        proof {
            vstd::seq_lib::to_multiset_len(group@);
            vstd::multiset::lemma_multiset_empty_len(group@.to_multiset());
        }
        let mut more = true;
        while more && idx < n
            invariant
                idx <= n,
                last_stretch ==> more,
                !more ==> forall|w: int|
                    idx <= w < n ==> pts[q + 1] <= jobs[#[trigger] order[w] as int].birth,
                forall|w: int| 0 <= w < n ==> (#[trigger] order[w]) < n,
                n == jobs.len(),
                m == pts.len(),
                q + 1 < m,
                t_q == pts[q as int],
                t_q_next == pts[q + 1],
                last_stretch == (q + 1 == m - 1),
                ascending(pts@),
                proper_lifetimes(jobs@),
                all_within(jobs@, pts[0], pts[m - 1]),
                keys.len() == n,
                forall|w: int| 0 <= w < n ==> #[trigger] keys[w] == (jobs[w].birth, 0usize),
                is_order_of(keys@, order@),
                perm == as_ints(order@),
                forall|w: int| idx <= w < n ==> pts[q as int] <= jobs[#[trigger] order[w] as int].birth,
                live@.to_multiset().add(rows_multiset(groups_view(xs@))).add(group@.to_multiset())
                    == pick(jobs@, perm.take(idx as int)).to_multiset(),
                forall|k: int| 0 <= k < live.len() ==> live_inside(*#[trigger] live[k], pts@),
                all_within(group@, t_q, t_q_next),
            decreases n - idx + if more { 1int } else { 0int },
        {
            let index = order[idx];
            proof {
                assert(0 <= perm[idx as int] < n);
                assert(pick(jobs@, perm.take(idx + 1)) =~= pick(jobs@, perm.take(idx as int)).push(
                    jobs@[index as int],
                ));
                vstd::seq_lib::to_multiset_build(
                    pick(jobs@, perm.take(idx as int)),
                    jobs@[index as int],
                );
                vstd::seq_lib::to_multiset_build(live@, jobs@[index as int]);
                vstd::seq_lib::to_multiset_build(group@, jobs@[index as int]);
            }
            let j = &jobs[index];
            if last_stretch || j.lives_within(&(t_q, t_q_next)) {
                group.push(share(j));
                idx += 1;
            } else if j.is_live_at(t_q_next) {
                proof {
                    assert(j.live_at(pts[q + 1] as int));
                }
                live.push(share(j));
                idx += 1;
            } else {
                // The stretch has nothing more: the job is born after it.
                proof {
                    assert forall|w: int| idx <= w < n implies pts[q + 1] <= jobs[#[trigger] order[w] as int].birth by {
                        assert(key_le(
                            ranked(keys@, order[idx as int] as int),
                            ranked(keys@, order[w] as int),
                        ));
                        assert(keys[order[idx as int] as int] == (jobs[order[idx as int] as int].birth, 0usize));
                        assert(keys[order[w] as int] == (jobs[order[w] as int].birth, 0usize));
                    }
                }
                more = false;
            }
        }
        if group.len() > 0 {
            let ghost rows = groups_view(xs@);
            let ghost members = group@;
            xs.push((q, Instance::new(group)));
            group = Vec::new();
            proof {
                assert(groups_view(xs@) =~= rows.push(members));
                lemma_rows_multiset_push(rows, members);
                vstd::seq_lib::to_multiset_len(group@);
                vstd::multiset::lemma_multiset_empty_len(group@.to_multiset());
            }
        } else {
            proof {
                vstd::seq_lib::to_multiset_len(group@);
                vstd::multiset::lemma_multiset_empty_len(group@.to_multiset());
            }
        }
        q += 1;
    }
    proof {
        assert(perm.take(n as int) =~= perm);
        lemma_permutation_multiset(jobs@, perm);
    }
    (live, xs)
}

impl Instance {
    /// Splits the instance around the critical points: the jobs live at
    /// a critical point on the inside, and for each stretch between two
    /// neighbouring points the jobs that live within it.
    pub fn split_by_liveness(self, pts: &BTreeSet<ByteSteps>) -> (res: (
        JobSet,
        Vec<(ByteSteps, Instance)>,
    ))
        requires
            pts@.len() >= 2,
            proper_lifetimes(self.jobs@),
            exists|lo: usize, hi: usize| #[trigger]
                spans(pts@, lo, hi) && all_within(self.jobs@, lo, hi),
        ensures
            exists|v: Seq<usize>|
                ascending(v) && v.to_set() == pts@ && #[trigger] is_split(self.jobs@, v, res.0@, res.1@),
    {
        let v = in_order(pts);
        proof {
            let (lo, hi) = choose|lo: usize, hi: usize| #[trigger]
                spans(pts@, lo, hi) && all_within(self.jobs@, lo, hi);
            let first = v[0];
            let last = v[v.len() - 1];
            assert(v@.contains(first));
            assert(v@.contains(last));
            assert(v@.to_set().contains(lo));
            assert(v@.contains(lo));
            let a = choose|a: int| 0 <= a < v.len() && v[a] == lo;
            assert(v@.to_set().contains(hi));
            assert(v@.contains(hi));
            let b = choose|b: int| 0 <= b < v.len() && v[b] == hi;
            assert(pts@.contains(first));
            assert(pts@.contains(last));
            assert(first == lo);
            assert(last == hi);
        }
        let res = split_at_points(self.jobs, &v);
        proof {
            assert(is_split(self.jobs@, v@, res.0@, res.1@));
        }
        res
    }
}

/// Among the heights, `t` is the least that is no lower than `size`.
pub open spec fn least_above(thresholds: Seq<usize>, size: usize, t: usize) -> bool {
    size <= t && forall|k: int| 0 <= k < thresholds.len() && size <= #[trigger] thresholds[k] ==> t <= thresholds[k]
}

/// What sorting `jobs` into buckets by the heights `thresholds` gives:
/// every job is in one bucket; a bucket goes with one of the heights,
/// holds jobs for which that is the least height no lower than they are,
/// and is not empty; the buckets come in the order of their heights.
pub open spec fn are_buckets(
    jobs: Seq<Arc<Job>>,
    thresholds: Seq<usize>,
    buckets: Seq<(ByteSteps, Instance)>,
) -> bool {
    &&& rows_multiset(groups_view(buckets)) == jobs.to_multiset()
    &&& forall|b: int|
        0 <= b < buckets.len() ==> thresholds.contains((#[trigger] buckets[b]).0) && buckets[b].1.jobs.len()
            > 0 && buckets[b].1.wf() && forall|i: int|
            0 <= i < buckets[b].1.jobs.len() ==> least_above(
                thresholds,
                (#[trigger] buckets[b].1.jobs[i]).size,
                buckets[b].0,
            )
    &&& forall|a: int, b: int|
        0 <= a < b < buckets.len() ==> (#[trigger] buckets[a]).0 < (#[trigger] buckets[b]).0
}

impl Instance {
    /// Sorts the jobs into buckets by height. Goes through the heights,
    /// which go upward; where a job is above the height before and no
    /// higher than the height at hand, all the jobs left that are no
    /// higher make a bucket under that height.
    pub fn make_buckets(source: Instance, thresholds: &Vec<ByteSteps>) -> (res: Vec<(ByteSteps, Instance)>)
        requires
            forall|a: int, b: int| 0 <= a <= b < thresholds.len() ==> thresholds[a] <= thresholds[b],
            forall|i: int|
                0 <= i < source.jobs.len() ==> thresholds.len() > 0 && (#[trigger] source.jobs[i]).size
                    <= thresholds[thresholds.len() - 1],
        ensures
            are_buckets(source.jobs@, thresholds@, res@),
    {
        let ghost jobs = source.jobs@;
        let mut source = source;
        let mut res: Vec<(ByteSteps, Instance)> = Vec::new();
        let mut prev_floor: usize = 0;
        let mut k: usize = 0;
        proof {
            if source.jobs.len() > 0 {
                assert(source.jobs[0].size <= thresholds[thresholds.len() - 1]);
            }
            assert(groups_view(res@) =~= Seq::<Seq<Arc<Job>>>::empty());
            assert(rows_multiset(groups_view(res@)).add(source.jobs@.to_multiset())
                =~= jobs.to_multiset()) by {
                broadcast use vstd::multiset::group_multiset_axioms;

            }
        }
        while k < thresholds.len()
            invariant
                k <= thresholds.len(),
                forall|a: int, b: int| 0 <= a <= b < thresholds.len() ==> thresholds[a] <= thresholds[b],
                forall|i: int|
                    0 <= i < source.jobs.len() ==> (#[trigger] source.jobs[i]).size
                        <= thresholds[thresholds.len() - 1],
                source.jobs.len() > 0 ==> thresholds.len() > 0,
                k > 0 ==> prev_floor == thresholds[k - 1],
                k > 0 ==> forall|i: int| 0 <= i < source.jobs.len() ==> (#[trigger] source.jobs[i]).size > prev_floor,
                rows_multiset(groups_view(res@)).add(source.jobs@.to_multiset()) == jobs.to_multiset(),
                forall|b: int|
                    0 <= b < res.len() ==> thresholds@.contains((#[trigger] res[b]).0) && res[b].1.jobs.len()
                        > 0 && res[b].1.wf() && (forall|i: int|
                        0 <= i < res[b].1.jobs.len() ==> least_above(
                            thresholds@,
                            (#[trigger] res[b].1.jobs[i]).size,
                            res[b].0,
                        )) && (k > 0 ==> res[b].0 <= prev_floor),
                forall|a: int, b: int|
                    0 <= a < b < res.len() ==> (#[trigger] res[a]).0 < (#[trigger] res[b]).0,
                k == 0 ==> res.len() == 0,
            decreases thresholds.len() - k,
        {
            let h_split = thresholds[k];
            let ghost left = source.jobs@;
            let ghost rows = groups_view(res@);
            proof {
                lemma_split_height(left, h_split);
                assert(thresholds@.contains(thresholds@[k as int]));
                if k > 0 {
                    assert(thresholds[k - 1] <= thresholds[k as int]);
                }
            }
            if Self::any_between(&source.jobs, k > 0, prev_floor, h_split) {
                let (toward_bucket, rem) = source.split_by_height(h_split);
                proof {
                    assert(groups_view(res@.push((h_split, toward_bucket))) =~= rows.push(
                        toward_bucket.jobs@,
                    ));
                    lemma_rows_multiset_push(rows, toward_bucket.jobs@);
                    assert(rows_multiset(rows.push(toward_bucket.jobs@)).add(rem.jobs@.to_multiset())
                        =~= jobs.to_multiset()) by {
                        broadcast use vstd::multiset::group_multiset_axioms;

                    }
                    toward_bucket.jobs@.lemma_filter_len(no_higher_than(h_split));
                    assert(rem.jobs@.to_multiset().add(toward_bucket.jobs@.to_multiset())
                        =~= left.to_multiset()) by {
                        broadcast use vstd::multiset::group_multiset_axioms;

                    }
                    crate::model::lemma_members_of(
                        rem.jobs@,
                        toward_bucket.jobs@.to_multiset(),
                        left,
                    );
                    assert forall|i: int| 0 <= i < rem.jobs.len() implies (#[trigger] rem.jobs[i]).size
                        <= thresholds[thresholds.len() - 1] by {
                        assert(left.contains(rem.jobs@[i]));
                        let w = choose|w: int| 0 <= w < left.len() && left[w] == rem.jobs@[i];
                    }
                    crate::model::lemma_members_of(
                        toward_bucket.jobs@,
                        rem.jobs@.to_multiset(),
                        left,
                    );
                    assert forall|i: int| 0 <= i < toward_bucket.jobs.len() implies least_above(
                        thresholds@,
                        (#[trigger] toward_bucket.jobs[i]).size,
                        h_split,
                    ) by {
                        let j = toward_bucket.jobs@[i];
                        assert(left.contains(j));
                        let w = choose|w: int| 0 <= w < left.len() && left[w] == j;
                        assert forall|q: int|
                            0 <= q < thresholds.len() && j.size <= #[trigger] thresholds[q] implies h_split
                            <= thresholds[q] by {
                            if q < k {
                                assert(thresholds[q] <= thresholds[k - 1]);
                                assert(left[w].size > prev_floor);
                            } else {
                                assert(thresholds[k as int] <= thresholds[q]);
                            }
                        }
                    }
                    let witness = choose|i: int|
                        0 <= i < left.len() && (#[trigger] left[i]).size <= h_split;
                    assert(toward_bucket.jobs.len() > 0) by {
                        if toward_bucket.jobs.len() == 0 {
                            lemma_empty_multiset(toward_bucket.jobs@);
                            assert(left.contains(left[witness]));
                            vstd::seq_lib::to_multiset_contains(left, left[witness]);
                            vstd::seq_lib::to_multiset_contains(rem.jobs@, left[witness]);
                            broadcast use vstd::multiset::group_multiset_axioms;

                            assert(rem.jobs@.contains(left[witness]));
                            let w = choose|w: int| 0 <= w < rem.jobs.len() && rem.jobs@[w] == left[witness];
                            assert(rem.jobs@[w].size > h_split);
                        }
                    }
                }
                res.push((h_split, toward_bucket));
                source = rem;
            } else {
                proof {
                    assert forall|i: int| 0 <= i < left.len() implies (#[trigger] left[i]).size > h_split by {}
                }
            }
            prev_floor = h_split;
            k += 1;
        }
        proof {
            if source.jobs.len() > 0 {
                assert(source.jobs[0].size <= thresholds[thresholds.len() - 1]);
                assert(source.jobs[0].size > prev_floor);
            }
            lemma_empty_multiset(source.jobs@);
            assert(rows_multiset(groups_view(res@)) =~= jobs.to_multiset()) by {
                broadcast use vstd::multiset::group_multiset_axioms;

            }
        }
        res
    }

    /// Says whether some job is above `floor`, where one is set, and no
    /// higher than `ceil`.
    fn any_between(jobs: &JobSet, floored: bool, floor: ByteSteps, ceil: ByteSteps) -> (r: bool)
        ensures
            r == exists|i: int|
                0 <= i < jobs.len() && (!floored || (#[trigger] jobs[i]).size > floor) && jobs[i].size
                    <= ceil,
    {
        let mut i: usize = 0;
        while i < jobs.len()
            invariant
                i <= jobs.len(),
                forall|k: int|
                    0 <= k < i ==> !((!floored || (#[trigger] jobs[k]).size > floor) && jobs[k].size
                        <= ceil),
            decreases jobs.len() - i,
        {
            if (!floored || jobs[i].size > floor) && jobs[i].size <= ceil {
                return true;
            }
            i += 1;
        }
        false
    }
}

} // verus!
