use crate::algo::placement::{apart, end_of, held_by, holds, lemma_rows_once, once};
use crate::analyze::{distinct_ids, registry_of};
use crate::helpe::PlacedJob;
use crate::job::Job;
use crate::model::{
    is_coloring, is_load, is_peak, lemma_sum_if_same, live_sum, occupies, overlap, sum_if,
    weight,
};
use std::sync::Arc;
use vstd::prelude::*;

verus! {

/// The live sum of a job set is that of the set without its last job,
/// plus what the last job adds.
pub proof fn lemma_live_sum_step(jobs: Seq<Arc<Job>>, t: int, unit: bool)
    requires
        jobs.len() > 0,
    ensures
        live_sum(jobs, t, unit) == live_sum(jobs.drop_last(), t, unit) + if occupies(*jobs.last(), t) {
            weight(*jobs.last(), unit)
        } else {
            0
        },
{
    let p = |i: int| occupies(*jobs[i], t);
    let q = |i: int| occupies(*jobs.drop_last()[i], t);
    assert forall|i: int| 0 <= i < jobs.drop_last().len() implies #[trigger] p(i) == q(i) by {
        assert(jobs.drop_last()[i] == jobs[i]);
    }
    lemma_sum_if_same(jobs.drop_last(), p, q, unit);
}

/// The live sum of two job sets taken together is the sum of theirs.
pub proof fn lemma_live_sum_concat(a: Seq<Arc<Job>>, b: Seq<Arc<Job>>, t: int, unit: bool)
    ensures
        live_sum(a + b, t, unit) == live_sum(a, t, unit) + live_sum(b, t, unit),
    decreases b.len(),
{
    if b.len() == 0 {
        assert(a + b =~= a);
        crate::model::lemma_sum_if_none(b, |i: int| occupies(*b[i], t), unit);
    } else {
        assert((a + b).drop_last() =~= a + b.drop_last());
        lemma_live_sum_step(a + b, t, unit);
        lemma_live_sum_step(b, t, unit);
        lemma_live_sum_concat(a, b.drop_last(), t, unit);
    }
}

/// What a job adds to a live sum that is being added up.
pub open spec fn add_live(t: int, unit: bool) -> spec_fn(int, Arc<Job>) -> int {
    |acc: int, j: Arc<Job>|
        acc + if occupies(*j, t) {
            weight(*j, unit) as int
        } else {
            0
        }
}

/// The live sum is the jobs' weights added up one after the other.
pub proof fn lemma_live_sum_fold(jobs: Seq<Arc<Job>>, t: int, unit: bool)
    ensures
        live_sum(jobs, t, unit) == jobs.fold_left(0int, add_live(t, unit)),
    decreases jobs.len(),
{
    if jobs.len() == 0 {
        crate::model::lemma_sum_if_none(jobs, |i: int| occupies(*jobs[i], t), unit);
    } else {
        lemma_live_sum_step(jobs, t, unit);
        lemma_live_sum_fold(jobs.drop_last(), t, unit);
    }
}

/// The live sum does not depend on the order of the jobs.
pub proof fn lemma_live_sum_permutation(a: Seq<Arc<Job>>, b: Seq<Arc<Job>>, t: int, unit: bool)
    requires
        a.to_multiset() == b.to_multiset(),
    ensures
        live_sum(a, t, unit) == live_sum(b, t, unit),
{
    lemma_live_sum_fold(a, t, unit);
    lemma_live_sum_fold(b, t, unit);
    let f = add_live(t, unit);
    assert(vstd::seq_lib::commutative_foldl(f)) by {
        assert forall|x: Arc<Job>, y: Arc<Job>, v: int| #[trigger] f(f(v, x), y) == f(f(v, y), x) by {}
    }
    vstd::seq_lib::lemma_fold_left_permutation(a, b, f, 0int);
}

/// Where all jobs have one size, the bytes live in a slot are that size
/// times the jobs live in it.
pub proof fn lemma_uniform_load(jobs: Seq<Arc<Job>>, size: int, t: int)
    requires
        forall|i: int| 0 <= i < jobs.len() ==> (#[trigger] jobs[i]).size == size,
    ensures
        live_sum(jobs, t, false) == size * live_sum(jobs, t, true),
    decreases jobs.len(),
{
    if jobs.len() == 0 {
        crate::model::lemma_sum_if_none(jobs, |i: int| occupies(*jobs[i], t), false);
        crate::model::lemma_sum_if_none(jobs, |i: int| occupies(*jobs[i], t), true);
        assert(size * 0 == 0) by (nonlinear_arith);
    } else {
        let rest = jobs.drop_last();
        assert forall|i: int| 0 <= i < rest.len() implies (#[trigger] rest[i]).size == size by {
            assert(rest[i] == jobs[i]);
        }
        lemma_uniform_load(rest, size, t);
        lemma_live_sum_step(jobs, t, false);
        lemma_live_sum_step(jobs, t, true);
        let a = live_sum(rest, t, true) as int;
        assert(jobs[jobs.len() - 1].size == size);
        assert(size * (a + 1) == size * a + size) by (nonlinear_arith);
    }
}

/// A job set has one peak.
pub proof fn peak_is_unique(jobs: Seq<Arc<Job>>, x: nat, y: nat, unit: bool)
    requires
        is_peak(jobs, x, unit),
        is_peak(jobs, y, unit),
    ensures
        x == y,
{
    let tx = choose|t: int| #[trigger] live_sum(jobs, t, unit) == x;
    let ty = choose|t: int| #[trigger] live_sum(jobs, t, unit) == y;
    assert(live_sum(jobs, tx, unit) <= y);
    assert(live_sum(jobs, ty, unit) <= x);
}

/// The load of two job sets taken together is no more than the sum of
/// their loads, and no less than either.
pub proof fn load_of_merge(a: Seq<Arc<Job>>, b: Seq<Arc<Job>>, la: nat, lb: nat, merged: nat)
    requires
        is_load(a, la),
        is_load(b, lb),
        is_load(a + b, merged),
    ensures
        merged <= la + lb,
        merged >= la,
        merged >= lb,
{
    let tm = choose|t: int| #[trigger] live_sum(a + b, t, false) == merged;
    let ta = choose|t: int| #[trigger] live_sum(a, t, false) == la;
    let tb = choose|t: int| #[trigger] live_sum(b, t, false) == lb;
    lemma_live_sum_concat(a, b, tm, false);
    lemma_live_sum_concat(a, b, ta, false);
    lemma_live_sum_concat(a, b, tb, false);
    assert(live_sum(a, tm, false) <= la);
    assert(live_sum(b, tm, false) <= lb);
    assert(live_sum(a + b, ta, false) <= merged);
    assert(live_sum(a + b, tb, false) <= merged);
}

/// Colouring the same jobs again, in whatever order they come, gives as
/// many rows: as many as the most jobs live at one moment.
pub proof fn recolouring_keeps_row_count(
    jobs: Seq<Arc<Job>>,
    rows: Seq<Seq<Arc<Job>>>,
    again: Seq<Arc<Job>>,
    rows_again: Seq<Seq<Arc<Job>>>,
)
    requires
        is_coloring(jobs, rows),
        is_coloring(again, rows_again),
        jobs.to_multiset() == again.to_multiset(),
    ensures
        rows.len() == rows_again.len(),
        is_peak(jobs, rows.len(), true),
{
    assert(is_peak(jobs, rows_again.len(), true)) by {
        assert forall|t: int| #[trigger] live_sum(jobs, t, true) <= rows_again.len() by {
            lemma_live_sum_permutation(jobs, again, t, true);
            assert(live_sum(again, t, true) <= rows_again.len());
        }
        let t = choose|t: int| #[trigger] live_sum(again, t, true) == rows_again.len();
        lemma_live_sum_permutation(jobs, again, t, true);
        assert(live_sum(jobs, t, true) == rows_again.len());
    }
    peak_is_unique(jobs, rows.len(), rows_again.len(), true);
}

/// Jobs that stand in an address space of `m` bytes, no two of them on a
/// common address, have sizes that add up to `m` at most.
pub proof fn lemma_stack_height(
    jobs: Seq<Arc<Job>>,
    p: spec_fn(int) -> bool,
    off: spec_fn(int) -> int,
    m: int,
)
    requires
        0 <= m,
        forall|i: int|
            0 <= i < jobs.len() && #[trigger] p(i) ==> jobs[i].size > 0 && 0 <= off(i) && off(i)
                + jobs[i].size <= m,
        forall|i: int, j: int|
            0 <= i < jobs.len() && 0 <= j < jobs.len() && i != j && #[trigger] p(i) && #[trigger] p(j)
                ==> off(i) + jobs[i].size <= off(j) || off(j) + jobs[j].size <= off(i),
    ensures
        sum_if(jobs, p, false) <= m,
    decreases jobs.len(),
{
    if jobs.len() > 0 {
        let last = jobs.len() - 1;
        let rest = jobs.drop_last();
        assert forall|i: int| 0 <= i < rest.len() implies rest[i] == jobs[i] by {}
        if p(last) {
            // Take the last job out and let what stands above it come down.
            let o = off(last);
            let s = jobs[last].size as int;
            let down = |i: int|
                if off(i) >= o + s {
                    off(i) - s
                } else {
                    off(i)
                };
            assert forall|i: int| 0 <= i < rest.len() && #[trigger] p(i) implies rest[i].size > 0 && 0
                <= down(i) && down(i) + rest[i].size <= m - s by {
                assert(p(last));
                assert(off(i) + jobs[i].size <= off(last) || off(last) + jobs[last].size <= off(i));
            }
            assert forall|i: int, j: int|
                0 <= i < rest.len() && 0 <= j < rest.len() && i != j && #[trigger] p(i) && #[trigger] p(
                    j,
                ) implies down(i) + rest[i].size <= down(j) || down(j) + rest[j].size <= down(i) by {
                assert(p(last));
                assert(off(i) + jobs[i].size <= off(last) || off(last) + jobs[last].size <= off(i));
                assert(off(j) + jobs[j].size <= off(last) || off(last) + jobs[last].size <= off(j));
                assert(off(i) + jobs[i].size <= off(j) || off(j) + jobs[j].size <= off(i));
            }
            lemma_stack_height(rest, p, down, m - s);
        } else {
            lemma_stack_height(rest, p, off, m);
        }
    }
}

/// Of jobs of which no two are live at a common moment, no slot holds
/// more bytes than the biggest job has.
pub proof fn load_of_lone_jobs(jobs: Seq<Arc<Job>>, t: int, max: nat)
    requires
        forall|i: int, j: int|
            #![trigger jobs[i], jobs[j]]
            0 <= i < jobs.len() && 0 <= j < jobs.len() && i != j ==> !overlap(*jobs[i], *jobs[j]),
        forall|i: int| 0 <= i < jobs.len() ==> (#[trigger] jobs[i]).size <= max,
    ensures
        live_sum(jobs, t, false) <= max,
    decreases jobs.len(),
{
    if jobs.len() == 0 {
        crate::model::lemma_sum_if_none(jobs, |i: int| occupies(*jobs[i], t), false);
    } else {
        let rest = jobs.drop_last();
        let last = jobs.len() - 1;
        assert forall|i: int, j: int|
            #![trigger rest[i], rest[j]]
            0 <= i < rest.len() && 0 <= j < rest.len() && i != j implies !overlap(*rest[i], *rest[j]) by {
            assert(rest[i] == jobs[i] && rest[j] == jobs[j]);
        }
        assert forall|i: int| 0 <= i < rest.len() implies (#[trigger] rest[i]).size <= max by {
            assert(rest[i] == jobs[i]);
        }
        lemma_live_sum_step(jobs, t, false);
        if jobs[last].birth <= t < jobs[last].death {
            assert forall|i: int| 0 <= i < rest.len() implies !occupies(*#[trigger] rest[i], t) by {
                assert(rest[i] == jobs[i]);
                assert(!overlap(*jobs[i], *jobs[last]));
            }
            let p = |i: int| occupies(*rest[i], t);
            assert forall|i: int| 0 <= i < rest.len() implies !#[trigger] p(i) by {
                assert(!occupies(*rest[i], t));
            }
            crate::model::lemma_sum_if_none(rest, p, false);
            assert(jobs[last].size <= max);
        } else {
            load_of_lone_jobs(rest, t, max);
        }
    }
}

/// No two jobs that are live at a common moment stand on a common
/// address.
pub open spec fn no_clash(jobs: Seq<Arc<Job>>, reg: Map<u32, PlacedJob>) -> bool {
    forall|i: int, j: int|
        #![trigger jobs[i], jobs[j]]
        0 <= i < jobs.len() && 0 <= j < jobs.len() && i != j && overlap(*jobs[i], *jobs[j]) ==> apart(
            reg[jobs[i].id],
            reg[jobs[j].id],
        )
}

/// The makespan is where the highest job ends; with no job, zero.
pub open spec fn tops_at(jobs: Seq<Arc<Job>>, reg: Map<u32, PlacedJob>, makespan: int) -> bool {
    makespan == 0 || exists|i: int| 0 <= i < jobs.len() && end_of(reg[(#[trigger] jobs[i]).id]) == makespan
}

/// The jobs of the input stand where the registry says, no two on a
/// common address that are live at a common moment, and all below
/// `makespan`.
pub open spec fn valid_placement(jobs: Seq<Arc<Job>>, reg: Map<u32, PlacedJob>, makespan: int) -> bool {
    &&& forall|i: int| 0 <= i < jobs.len() ==> end_of(#[trigger] reg[jobs[i].id]) <= makespan
    &&& no_clash(jobs, reg)
}

/// No placement can do with less than the load: where the jobs stand
/// validly below `makespan`, their load is `makespan` at most.
pub proof fn load_is_lower_bound(jobs: Seq<Arc<Job>>, reg: Map<u32, PlacedJob>, makespan: int, load: nat)
    requires
        registry_of(jobs, reg),
        forall|i: int| 0 <= i < jobs.len() ==> (#[trigger] jobs[i]).size > 0,
        valid_placement(jobs, reg, makespan),
        0 <= makespan,
        is_load(jobs, load),
    ensures
        load <= makespan,
{
    let t = choose|t: int| #[trigger] live_sum(jobs, t, false) == load;
    let p = |i: int| occupies(*jobs[i], t);
    let off = |i: int| reg[jobs[i].id].offset as int;
    assert forall|i: int| 0 <= i < jobs.len() && #[trigger] p(i) implies jobs[i].size > 0 && 0 <= off(i)
        && off(i) + jobs[i].size <= makespan by {
        assert(reg[jobs[i].id].descr == jobs[i]);
        assert(end_of(reg[jobs[i].id]) <= makespan);
    }
    assert forall|i: int, j: int|
        0 <= i < jobs.len() && 0 <= j < jobs.len() && i != j && #[trigger] p(i) && #[trigger] p(
            j,
        ) implies off(i) + jobs[i].size <= off(j) || off(j) + jobs[j].size <= off(i) by {
        assert(overlap(*jobs[i], *jobs[j]));
        assert(reg[jobs[i].id].descr == jobs[i]);
        assert(reg[jobs[j].id].descr == jobs[j]);
        assert(apart(reg[jobs[i].id], reg[jobs[j].id]));
    }
    lemma_stack_height(jobs, p, off, makespan);
}

/// Jobs of the input of which no two have one identifier hold no job
/// of the input twice.
pub proof fn distinct_jobs_are_held_once(jobs: Seq<Arc<Job>>)
    requires
        distinct_ids(jobs),
        forall|i: int| 0 <= i < jobs.len() ==> (#[trigger] jobs[i]).contents is None,
    ensures
        once(jobs),
{
    assert forall|i: int, j: int, id: u32|
        #![trigger held_by(*jobs[i], id), held_by(*jobs[j], id)]
        0 <= i < jobs.len() && 0 <= j < jobs.len() && i != j implies !(held_by(*jobs[i], id) && held_by(
        *jobs[j],
        id,
    )) by {
        assert(jobs[i].contents is None && jobs[j].contents is None);
        assert(jobs[i].id != jobs[j].id);
    }
    reveal(once);
}

/// Boxes that hold, one level down, jobs of which none of the input is
/// held twice, each of these jobs in one box, hold no job of the input
/// twice: what comes out of boxing such jobs can be unboxed with one
/// entry for every job.
pub proof fn boxing_keeps_jobs_held_once(jobs: Seq<Arc<Job>>, boxes: Seq<Arc<Job>>, height: usize)
    requires
        once(jobs),
        crate::model::are_boxes(boxes, height),
        crate::model::unboxed(boxes) == jobs.to_multiset(),
    ensures
        once(boxes),
{
    let rows = crate::model::contents_of(boxes);
    lemma_rows_once(jobs, rows);
    assert forall|i: int, j: int, id: u32|
        #![trigger held_by(*boxes[i], id), held_by(*boxes[j], id)]
        0 <= i < boxes.len() && 0 <= j < boxes.len() && i != j implies !(held_by(*boxes[i], id) && held_by(
        *boxes[j],
        id,
    )) by {
        assert(crate::model::is_box(*boxes[i], height) && crate::model::is_box(*boxes[j], height));
        assert(held_by(*boxes[i], id) == holds(rows[i], id));
        assert(held_by(*boxes[j], id) == holds(rows[j], id));
    }
    assert forall|i: int| 0 <= i < boxes.len() implies match (#[trigger] boxes[i]).contents {
        Some(c) => once(c@),
        None => true,
    } by {
        assert(crate::model::is_box(*boxes[i], height));
        assert(once(rows[i]));
    }
    reveal(once);
}

} // verus!
