use crate::helpe::{
    birth_at, birth_pos, death_at, death_pos, is_traversal, lemma_birth_before_death,
    lemma_positions_unique, Event, EventKind,
};
use crate::job::Job;
use std::sync::Arc;
use vstd::multiset::Multiset;
use vstd::prelude::*;

verus! {

/// What a job counts for in a sum: one row, or its bytes.
pub open spec fn weight(j: Job, unit: bool) -> nat {
    if unit {
        1
    } else {
        j.size as nat
    }
}

/// Sum of the weights of the jobs whose index satisfies `p`.
pub open spec fn sum_if(jobs: Seq<Arc<Job>>, p: spec_fn(int) -> bool, unit: bool) -> nat
    decreases jobs.len(),
{
    if jobs.len() == 0 {
        0
    } else {
        sum_if(jobs.drop_last(), p, unit) + if p(jobs.len() - 1) {
            weight(*jobs.last(), unit)
        } else {
            0
        }
    }
}

/// Where `p` holds only where `q` does, the sum under `p` is no more
/// than the sum under `q`.
pub proof fn lemma_sum_if_subset(
    jobs: Seq<Arc<Job>>,
    p: spec_fn(int) -> bool,
    q: spec_fn(int) -> bool,
    unit: bool,
)
    requires
        forall|i: int| 0 <= i < jobs.len() && #[trigger] p(i) ==> q(i),
    ensures
        sum_if(jobs, p, unit) <= sum_if(jobs, q, unit),
    decreases jobs.len(),
{
    if jobs.len() > 0 {
        lemma_sum_if_subset(jobs.drop_last(), p, q, unit);
    }
}

/// Predicates that hold of the same indices give the same sum.
pub proof fn lemma_sum_if_same(
    jobs: Seq<Arc<Job>>,
    p: spec_fn(int) -> bool,
    q: spec_fn(int) -> bool,
    unit: bool,
)
    requires
        forall|i: int| 0 <= i < jobs.len() ==> #[trigger] p(i) == q(i),
    ensures
        sum_if(jobs, p, unit) == sum_if(jobs, q, unit),
{
    lemma_sum_if_subset(jobs, p, q, unit);
    lemma_sum_if_subset(jobs, q, p, unit);
}

/// A predicate that holds of no index gives the sum zero.
pub proof fn lemma_sum_if_none(jobs: Seq<Arc<Job>>, p: spec_fn(int) -> bool, unit: bool)
    requires
        forall|i: int| 0 <= i < jobs.len() ==> !#[trigger] p(i),
    ensures
        sum_if(jobs, p, unit) == 0,
    decreases jobs.len(),
{
    if jobs.len() > 0 {
        lemma_sum_if_none(jobs.drop_last(), p, unit);
    }
}

/// `q` holds of one index more than `p`.
pub proof fn lemma_sum_if_one_more(
    jobs: Seq<Arc<Job>>,
    p: spec_fn(int) -> bool,
    q: spec_fn(int) -> bool,
    unit: bool,
    i: int,
)
    requires
        0 <= i < jobs.len(),
        !p(i),
        q(i),
        forall|j: int| 0 <= j < jobs.len() && j != i ==> #[trigger] p(j) == q(j),
    ensures
        sum_if(jobs, q, unit) == sum_if(jobs, p, unit) + weight(*jobs[i], unit),
    decreases jobs.len(),
{
    if i == jobs.len() - 1 {
        lemma_sum_if_same(jobs.drop_last(), p, q, unit);
    } else {
        lemma_sum_if_one_more(jobs.drop_last(), p, q, unit, i);
    }
}

/// The earliest birth among `jobs`; the greatest moment where there is
/// none.
pub open spec fn min_birth(jobs: Seq<Arc<Job>>) -> usize
    decreases jobs.len(),
{
    if jobs.len() == 0 {
        usize::MAX
    } else if jobs.last().birth < min_birth(jobs.drop_last()) {
        jobs.last().birth
    } else {
        min_birth(jobs.drop_last())
    }
}

/// The latest death among `jobs`; zero where there is none.
pub open spec fn max_death(jobs: Seq<Arc<Job>>) -> usize
    decreases jobs.len(),
{
    if jobs.len() == 0 {
        0
    } else if jobs.last().death > max_death(jobs.drop_last()) {
        jobs.last().death
    } else {
        max_death(jobs.drop_last())
    }
}

/// The least size among `jobs`; the greatest number where there is none.
pub open spec fn min_size(jobs: Seq<Arc<Job>>) -> usize
    decreases jobs.len(),
{
    if jobs.len() == 0 {
        usize::MAX
    } else if jobs.last().size < min_size(jobs.drop_last()) {
        jobs.last().size
    } else {
        min_size(jobs.drop_last())
    }
}

/// The greatest size among `jobs`; zero where there is none.
pub open spec fn max_size(jobs: Seq<Arc<Job>>) -> usize
    decreases jobs.len(),
{
    if jobs.len() == 0 {
        0
    } else if jobs.last().size > max_size(jobs.drop_last()) {
        jobs.last().size
    } else {
        max_size(jobs.drop_last())
    }
}

/// The least size of two groups together is the lesser of their least
/// sizes, and likewise for the greatest.
pub proof fn lemma_sizes_concat(a: Seq<Arc<Job>>, b: Seq<Arc<Job>>)
    ensures
        min_size(a + b) == if min_size(a) < min_size(b) {
            min_size(a)
        } else {
            min_size(b)
        },
        max_size(a + b) == if max_size(a) > max_size(b) {
            max_size(a)
        } else {
            max_size(b)
        },
    decreases b.len(),
{
    if b.len() == 0 {
        assert(a + b =~= a);
    } else {
        assert((a + b).drop_last() =~= a + b.drop_last());
        lemma_sizes_concat(a, b.drop_last());
    }
}

/// The jobs that are live at moment `t`.
pub open spec fn live_at_moment(t: usize) -> spec_fn(Arc<Job>) -> bool {
    |j: Arc<Job>| j.live_at(t as int)
}

/// The jobs that are not live at moment `t` because they are dead by
/// then.
pub open spec fn dead_by(t: usize) -> spec_fn(Arc<Job>) -> bool {
    |j: Arc<Job>| !j.live_at(t as int) && j.death <= t
}

/// The jobs that are not live at moment `t` and not dead by then: they
/// are born at `t` or later.
pub open spec fn unborn_at(t: usize) -> spec_fn(Arc<Job>) -> bool {
    |j: Arc<Job>| !j.live_at(t as int) && j.death > t
}

/// The groups into which a set of jobs falls around the critical points
/// `pts`: the jobs live at the middle point, then the groups of those
/// dead by then around the points before it, then the groups of the
/// others around the points after it. With fewer than three points the
/// jobs are one group.
pub open spec fn ris(jobs: Seq<Arc<Job>>, pts: Seq<usize>) -> Seq<Seq<Arc<Job>>>
    decreases pts.len(),
{
    if pts.len() < 3 {
        seq![jobs]
    } else {
        let mid = (pts.len() - 1) / 2;
        let t = pts[mid];
        let before = jobs.filter(dead_by(t));
        let after = jobs.filter(unborn_at(t));
        seq![jobs.filter(live_at_moment(t))] + (if before.len() > 0 {
            ris(before, pts.subrange(0, mid))
        } else {
            Seq::empty()
        }) + (if after.len() > 0 {
            ris(after, pts.subrange(mid + 1, pts.len() as int))
        } else {
            Seq::empty()
        })
    }
}

/// The jobs of size up to `ceil`.
pub open spec fn no_higher_than(ceil: usize) -> spec_fn(Arc<Job>) -> bool {
    |j: Arc<Job>| j.size <= ceil
}

/// The jobs of size above `ceil`.
pub open spec fn higher_than(ceil: usize) -> spec_fn(Arc<Job>) -> bool {
    |j: Arc<Job>| j.size > ceil
}

/// What a job adds to the count of jobs of the input: itself, or what it
/// says it holds if it is a box.
pub open spec fn originals_of(j: Job) -> nat {
    if j.contents is None {
        1
    } else {
        j.originals_boxed as nat
    }
}

/// The jobs of the input that `jobs` stand for.
pub open spec fn originals_in(jobs: Seq<Arc<Job>>) -> nat
    decreases jobs.len(),
{
    if jobs.len() == 0 {
        0
    } else {
        originals_in(jobs.drop_last()) + originals_of(*jobs.last())
    }
}

/// No job is born before `min_birth`, none dies after `max_death`, and
/// where there are jobs, one is born and one dies at those moments.
pub proof fn lemma_horizon(jobs: Seq<Arc<Job>>)
    ensures
        forall|i: int| 0 <= i < jobs.len() ==> min_birth(jobs) <= (#[trigger] jobs[i]).birth,
        forall|i: int| 0 <= i < jobs.len() ==> (#[trigger] jobs[i]).death <= max_death(jobs),
        jobs.len() > 0 ==> exists|i: int| 0 <= i < jobs.len() && (#[trigger] jobs[i]).birth == min_birth(jobs),
        jobs.len() > 0 ==> exists|i: int| 0 <= i < jobs.len() && (#[trigger] jobs[i]).death == max_death(jobs),
    decreases jobs.len(),
{
    if jobs.len() > 0 {
        let rest = jobs.drop_last();
        lemma_horizon(rest);
        let last = jobs.len() - 1;
        assert forall|i: int| 0 <= i < jobs.len() implies min_birth(jobs) <= (#[trigger] jobs[i]).birth by {
            if i < last {
                assert(rest[i] == jobs[i]);
            }
        }
        assert forall|i: int| 0 <= i < jobs.len() implies (#[trigger] jobs[i]).death <= max_death(jobs) by {
            if i < last {
                assert(rest[i] == jobs[i]);
            }
        }
        if rest.len() == 0 {
            assert(jobs[last].birth == min_birth(jobs));
            assert(jobs[last].death == max_death(jobs));
        } else {
            let b = choose|i: int| 0 <= i < rest.len() && (#[trigger] rest[i]).birth == min_birth(rest);
            let d = choose|i: int| 0 <= i < rest.len() && (#[trigger] rest[i]).death == max_death(rest);
            assert(rest[b] == jobs[b]);
            assert(rest[d] == jobs[d]);
            if jobs[last].birth < min_birth(rest) {
                assert(jobs[last].birth == min_birth(jobs));
            } else {
                assert(jobs[b].birth == min_birth(jobs));
            }
            if jobs[last].death > max_death(rest) {
                assert(jobs[last].death == max_death(jobs));
            } else {
                assert(jobs[d].death == max_death(jobs));
            }
        }
    }
}

/// The job fills the time slot that starts at `t`.
pub open spec fn occupies(j: Job, t: int) -> bool {
    j.birth <= t < j.death
}

/// Two jobs are live at a common moment.
pub open spec fn overlap(a: Job, b: Job) -> bool {
    a.birth < b.death && b.birth < a.death
}

/// Bytes (or, with `unit`, jobs) live in the slot that starts at `t`.
pub open spec fn live_sum(jobs: Seq<Arc<Job>>, t: int, unit: bool) -> nat {
    sum_if(jobs, |i: int| occupies(*jobs[i], t), unit)
}

/// Bytes in use in the slot that starts at `t`.
pub open spec fn load_at(jobs: Seq<Arc<Job>>, t: int) -> nat {
    live_sum(jobs, t, false)
}

/// `l` is the greatest value of the live sum over all slots.
pub open spec fn is_peak(jobs: Seq<Arc<Job>>, l: nat, unit: bool) -> bool {
    &&& forall|t: int| #[trigger] live_sum(jobs, t, unit) <= l
    &&& exists|t: int| #[trigger] live_sum(jobs, t, unit) == l
}

/// `l` is the load of `jobs`: the most bytes live at any one moment.
pub open spec fn is_load(jobs: Seq<Arc<Job>>, l: nat) -> bool {
    is_peak(jobs, l, false)
}

/// The load of `jobs` fits the machine word.
pub open spec fn load_fits(jobs: Seq<Arc<Job>>) -> bool {
    forall|t: int| #[trigger] live_sum(jobs, t, false) <= usize::MAX
}

/// Every job dies after it is born.
pub open spec fn proper_lifetimes(jobs: Seq<Arc<Job>>) -> bool {
    forall|i: int| 0 <= i < jobs.len() ==> (#[trigger] jobs[i]).birth < jobs[i].death
}

/// The jobs come one after the other: each is dead before the next is
/// born, and each dies after it is born.
pub open spec fn is_row(row: Seq<Arc<Job>>) -> bool {
    &&& proper_lifetimes(row)
    &&& forall|a: int, b: int|
        #![trigger row[a], row[b]]
        0 <= a < b < row.len() ==> row[a].death <= row[b].birth
}

/// The rows of a colouring as sequences.
pub open spec fn rows_view(rows: Seq<Vec<Arc<Job>>>) -> Seq<Seq<Arc<Job>>> {
    Seq::new(rows.len(), |r: int| rows[r]@)
}

/// All the jobs of all the rows.
pub open spec fn rows_multiset(rows: Seq<Seq<Arc<Job>>>) -> Multiset<Arc<Job>>
    decreases rows.len(),
{
    if rows.len() == 0 {
        Multiset::empty()
    } else {
        rows_multiset(rows.drop_last()).add(rows.last().to_multiset())
    }
}

/// A new row of one job adds that job to the jobs of the rows.
pub proof fn lemma_rows_multiset_new_row(rows: Seq<Seq<Arc<Job>>>, j: Arc<Job>)
    ensures
        rows_multiset(rows.push(seq![j])) =~= rows_multiset(rows).insert(j),
{
    assert(rows.push(seq![j]).drop_last() =~= rows);
    assert(seq![j] =~= Seq::<Arc<Job>>::empty().push(j));
    vstd::seq_lib::to_multiset_build(Seq::<Arc<Job>>::empty(), j);
    vstd::seq_lib::to_multiset_len(Seq::<Arc<Job>>::empty());
    vstd::multiset::lemma_multiset_empty_len(Seq::<Arc<Job>>::empty().to_multiset());
    assert(Seq::<Arc<Job>>::empty().to_multiset() =~= Multiset::empty());
}

/// A job at the end of a row adds that job to the jobs of the rows.
pub proof fn lemma_rows_multiset_grow_row(rows: Seq<Seq<Arc<Job>>>, r: int, j: Arc<Job>)
    requires
        0 <= r < rows.len(),
    ensures
        rows_multiset(rows.update(r, rows[r].push(j))) =~= rows_multiset(rows).insert(j),
    decreases rows.len(),
{
    let grown = rows.update(r, rows[r].push(j));
    if r == rows.len() - 1 {
        assert(grown.drop_last() =~= rows.drop_last());
        vstd::seq_lib::to_multiset_build(rows[r], j);
    } else {
        assert(grown.drop_last() =~= rows.drop_last().update(r, rows[r].push(j)));
        lemma_rows_multiset_grow_row(rows.drop_last(), r, j);
    }
}

/// A sequence without elements has the empty multiset.
pub proof fn lemma_empty_multiset<A>(s: Seq<A>)
    requires
        s.len() == 0,
    ensures
        s.to_multiset() == Multiset::<A>::empty(),
{
    vstd::seq_lib::to_multiset_len(s);
    vstd::multiset::lemma_multiset_empty_len(s.to_multiset());
    assert(s.to_multiset() =~= Multiset::<A>::empty());
}

/// The jobs live at a moment, those dead by then and those born later
/// are all the jobs, each once.
pub proof fn lemma_around_moment(jobs: Seq<Arc<Job>>, t: usize)
    ensures
        jobs.filter(live_at_moment(t)).to_multiset().add(jobs.filter(dead_by(t)).to_multiset()).add(
            jobs.filter(unborn_at(t)).to_multiset(),
        ) == jobs.to_multiset(),
    decreases jobs.len(),
{
    broadcast use vstd::multiset::group_multiset_axioms;

    let a = live_at_moment(t);
    let b = dead_by(t);
    let c = unborn_at(t);
    if jobs.len() == 0 {
        jobs.lemma_filter_len(a);
        jobs.lemma_filter_len(b);
        jobs.lemma_filter_len(c);
        lemma_empty_multiset(jobs);
        lemma_empty_multiset(jobs.filter(a));
        lemma_empty_multiset(jobs.filter(b));
        lemma_empty_multiset(jobs.filter(c));
        assert(jobs.filter(a).to_multiset().add(jobs.filter(b).to_multiset()).add(
            jobs.filter(c).to_multiset(),
        ) =~= jobs.to_multiset());
    } else {
        let rest = jobs.drop_last();
        let last = jobs.last();
        assert(jobs =~= rest.push(last));
        lemma_around_moment(rest, t);
        rest.lemma_filter_push(last, a);
        rest.lemma_filter_push(last, b);
        rest.lemma_filter_push(last, c);
        vstd::seq_lib::to_multiset_build(rest, last);
        vstd::seq_lib::to_multiset_build(rest.filter(a), last);
        vstd::seq_lib::to_multiset_build(rest.filter(b), last);
        vstd::seq_lib::to_multiset_build(rest.filter(c), last);
        let ra = rest.filter(a).to_multiset();
        let rb = rest.filter(b).to_multiset();
        let rc = rest.filter(c).to_multiset();
        assert(ra.add(rb).add(rc) == rest.to_multiset());
        assert forall|v: Arc<Job>|
            jobs.filter(a).to_multiset().add(jobs.filter(b).to_multiset()).add(
                jobs.filter(c).to_multiset(),
            ).count(v) == jobs.to_multiset().count(v) by {
            assert(ra.add(rb).add(rc).count(v) == rest.to_multiset().count(v));
            assert(rest.to_multiset().insert(last) == rest.to_multiset().add(Multiset::singleton(last)));
            assert(ra.insert(last) == ra.add(Multiset::singleton(last)));
            assert(rb.insert(last) == rb.add(Multiset::singleton(last)));
            assert(rc.insert(last) == rc.add(Multiset::singleton(last)));
        }
        assert(jobs.filter(a).to_multiset().add(jobs.filter(b).to_multiset()).add(
            jobs.filter(c).to_multiset(),
        ) =~= jobs.to_multiset());
    }
}

/// The jobs up to a size and the jobs above it are all the jobs, each
/// once.
pub proof fn lemma_split_height(jobs: Seq<Arc<Job>>, ceil: usize)
    ensures
        jobs.filter(no_higher_than(ceil)).to_multiset().add(
            jobs.filter(higher_than(ceil)).to_multiset(),
        ) == jobs.to_multiset(),
        forall|i: int|
            0 <= i < jobs.filter(no_higher_than(ceil)).len() ==> (#[trigger] jobs.filter(
                no_higher_than(ceil),
            )[i]).size <= ceil,
        forall|i: int|
            0 <= i < jobs.filter(higher_than(ceil)).len() ==> (#[trigger] jobs.filter(
                higher_than(ceil),
            )[i]).size > ceil,
    decreases jobs.len(),
{
    broadcast use vstd::multiset::group_multiset_axioms;

    let a = no_higher_than(ceil);
    let b = higher_than(ceil);
    if jobs.len() == 0 {
        jobs.lemma_filter_len(a);
        jobs.lemma_filter_len(b);
        lemma_empty_multiset(jobs);
        lemma_empty_multiset(jobs.filter(a));
        lemma_empty_multiset(jobs.filter(b));
        assert(jobs.filter(a).to_multiset().add(jobs.filter(b).to_multiset()) =~= jobs.to_multiset());
    } else {
        let rest = jobs.drop_last();
        let last = jobs.last();
        assert(jobs =~= rest.push(last));
        lemma_split_height(rest, ceil);
        rest.lemma_filter_push(last, a);
        rest.lemma_filter_push(last, b);
        vstd::seq_lib::to_multiset_build(rest, last);
        vstd::seq_lib::to_multiset_build(rest.filter(a), last);
        vstd::seq_lib::to_multiset_build(rest.filter(b), last);
        let ra = rest.filter(a).to_multiset();
        let rb = rest.filter(b).to_multiset();
        assert forall|v: Arc<Job>|
            jobs.filter(a).to_multiset().add(jobs.filter(b).to_multiset()).count(v)
                == jobs.to_multiset().count(v) by {
            assert(ra.add(rb).count(v) == rest.to_multiset().count(v));
            assert(rest.to_multiset().insert(last) == rest.to_multiset().add(Multiset::singleton(last)));
            assert(ra.insert(last) == ra.add(Multiset::singleton(last)));
            assert(rb.insert(last) == rb.add(Multiset::singleton(last)));
        }
        assert(jobs.filter(a).to_multiset().add(jobs.filter(b).to_multiset()) =~= jobs.to_multiset());
        assert forall|i: int| 0 <= i < jobs.filter(a).len() implies (#[trigger] jobs.filter(a)[i]).size
            <= ceil by {
            if i < rest.filter(a).len() {
                assert(jobs.filter(a)[i] == rest.filter(a)[i]);
            }
        }
        assert forall|i: int| 0 <= i < jobs.filter(b).len() implies (#[trigger] jobs.filter(b)[i]).size
            > ceil by {
            if i < rest.filter(b).len() {
                assert(jobs.filter(b)[i] == rest.filter(b)[i]);
            }
        }
    }
}

/// Boxes of jobs that are live at some moment are live at some moment
/// themselves.
pub proof fn lemma_boxes_roomy(boxes: Seq<Arc<Job>>, height: usize, jobs: Seq<Arc<Job>>)
    requires
        are_boxes(boxes, height),
        unboxed(boxes) == jobs.to_multiset(),
        roomy(jobs),
    ensures
        roomy(boxes),
{
    assert forall|i: int| 0 <= i < boxes.len() implies (#[trigger] boxes[i]).birth + 2 <= boxes[i].death by {
        assert(is_box(*boxes[i], height));
        let c = boxes[i].contents->0@;
        assert(contents_of(boxes)[i] == c);
        lemma_horizon(c);
        let b = choose|k: int| 0 <= k < c.len() && (#[trigger] c[k]).birth == min_birth(c);
        lemma_rows_multiset_member(contents_of(boxes), i, b);
        vstd::seq_lib::to_multiset_contains(jobs, c[b]);
        let w = choose|w: int| 0 <= w < jobs.len() && jobs[w] == c[b];
        assert(jobs[w].birth + 2 <= jobs[w].death);
        assert(c[b].death <= max_death(c));
    }
}

/// The groups around the critical points hold all the jobs, each once.
pub proof fn lemma_ris_partition(jobs: Seq<Arc<Job>>, pts: Seq<usize>)
    ensures
        rows_multiset(ris(jobs, pts)) == jobs.to_multiset(),
    decreases pts.len(),
{
    broadcast use vstd::multiset::group_multiset_axioms;

    let none = Seq::<Seq<Arc<Job>>>::empty();
    assert(rows_multiset(none) =~= Multiset::empty());
    if pts.len() < 3 {
        lemma_rows_multiset_push(none, jobs);
        assert(seq![jobs] =~= none.push(jobs));
        assert(rows_multiset(ris(jobs, pts)) =~= jobs.to_multiset());
    } else {
        let mid = (pts.len() - 1) / 2;
        let t = pts[mid];
        let live = jobs.filter(live_at_moment(t));
        let before = jobs.filter(dead_by(t));
        let after = jobs.filter(unborn_at(t));
        let left = if before.len() > 0 {
            ris(before, pts.subrange(0, mid))
        } else {
            none
        };
        let right = if after.len() > 0 {
            ris(after, pts.subrange(mid + 1, pts.len() as int))
        } else {
            none
        };
        if before.len() > 0 {
            lemma_ris_partition(before, pts.subrange(0, mid));
        } else {
            lemma_empty_multiset(before);
        }
        if after.len() > 0 {
            lemma_ris_partition(after, pts.subrange(mid + 1, pts.len() as int));
        } else {
            lemma_empty_multiset(after);
        }
        lemma_rows_multiset_push(none, live);
        assert(seq![live] =~= none.push(live));
        lemma_rows_multiset_concat(seq![live], left);
        lemma_rows_multiset_concat(seq![live] + left, right);
        lemma_around_moment(jobs, t);
        assert(rows_multiset(ris(jobs, pts)) =~= jobs.to_multiset());
    }
}

/// How many jobs the rows hold.
pub open spec fn rows_len(rows: Seq<Seq<Arc<Job>>>) -> nat
    decreases rows.len(),
{
    if rows.len() == 0 {
        0
    } else {
        rows_len(rows.drop_last()) + rows.last().len()
    }
}

/// The rows hold as many jobs as their multiset has.
pub proof fn lemma_rows_len(rows: Seq<Seq<Arc<Job>>>)
    ensures
        rows_multiset(rows).len() == rows_len(rows),
    decreases rows.len(),
{
    broadcast use vstd::multiset::group_multiset_axioms;

    if rows.len() > 0 {
        lemma_rows_len(rows.drop_last());
        vstd::seq_lib::to_multiset_len(rows.last());
    }
}

/// The first rows hold no more jobs than all of them, and one row more
/// holds its jobs more.
pub proof fn lemma_rows_len_take(rows: Seq<Seq<Arc<Job>>>, k: int)
    requires
        0 <= k <= rows.len(),
    ensures
        rows_len(rows.take(k)) <= rows_len(rows),
        k < rows.len() ==> rows_len(rows.take(k + 1)) == rows_len(rows.take(k)) + rows[k].len(),
    decreases rows.len() - k,
{
    if k < rows.len() {
        assert(rows.take(k + 1).drop_last() =~= rows.take(k));
        lemma_rows_len_take(rows, k + 1);
    } else {
        assert(rows.take(k) =~= rows);
    }
}

/// Where a part and a rest make up a whole, every job of the part is
/// one of the whole, and the whole has as many jobs as both.
pub proof fn lemma_members_of(part: Seq<Arc<Job>>, rest: Multiset<Arc<Job>>, whole: Seq<Arc<Job>>)
    requires
        part.to_multiset().add(rest) == whole.to_multiset(),
    ensures
        forall|i: int| 0 <= i < part.len() ==> whole.contains(#[trigger] part[i]),
        whole.len() == part.len() + rest.len(),
        forall|x: Arc<Job>| rest.count(x) > 0 ==> whole.contains(x),
{
    broadcast use vstd::multiset::group_multiset_axioms;

    vstd::seq_lib::to_multiset_len(part);
    vstd::seq_lib::to_multiset_len(whole);
    assert forall|i: int| 0 <= i < part.len() implies whole.contains(#[trigger] part[i]) by {
        assert(part.contains(part[i]));
        vstd::seq_lib::to_multiset_contains(part, part[i]);
        vstd::seq_lib::to_multiset_contains(whole, part[i]);
        assert(part.to_multiset().add(rest).count(part[i]) > 0);
    }
    assert forall|x: Arc<Job>| rest.count(x) > 0 implies whole.contains(x) by {
        vstd::seq_lib::to_multiset_contains(whole, x);
        assert(part.to_multiset().add(rest).count(x) > 0);
    }
}

/// What holds of every job of a set holds of jobs taken from it.
pub proof fn lemma_inherit(part: Seq<Arc<Job>>, whole: Seq<Arc<Job>>, h: usize, h_real: usize)
    requires
        forall|i: int| 0 <= i < part.len() ==> whole.contains(#[trigger] part[i]),
    ensures
        fits_box(whole, h, h_real) ==> fits_box(part, h, h_real),
        roomy(whole) ==> roomy(part),
        proper_lifetimes(whole) ==> proper_lifetimes(part),
{
    assert forall|i: int| 0 <= i < part.len() implies (fits_box(whole, h, h_real) ==> (
    #[trigger] part[i]).size * h <= h_real) && (roomy(whole) ==> part[i].birth + 2 <= part[i].death)
        && (proper_lifetimes(whole) ==> part[i].birth < part[i].death) by {
        assert(whole.contains(part[i]));
        let w = choose|w: int| 0 <= w < whole.len() && whole[w] == part[i];
        if fits_box(whole, h, h_real) {
            assert(whole[w].size * h <= h_real);
        }
        if roomy(whole) {
            assert(whole[w].birth + 2 <= whole[w].death);
        }
        if proper_lifetimes(whole) {
            assert(whole[w].birth < whole[w].death);
        }
    }
}

/// No row holds more jobs than all the rows.
pub proof fn lemma_row_within_len(rows: Seq<Seq<Arc<Job>>>, g: int)
    requires
        0 <= g < rows.len(),
    ensures
        rows[g].len() <= rows_len(rows),
    decreases rows.len(),
{
    if g < rows.len() - 1 {
        assert(rows.drop_last()[g] == rows[g]);
        lemma_row_within_len(rows.drop_last(), g);
    }
}

/// What the boxes of two lists hold is what the boxes of the one list
/// hold and what those of the other hold.
pub proof fn lemma_unboxed_concat(a: Seq<Arc<Job>>, b: Seq<Arc<Job>>)
    ensures
        unboxed(a + b) == unboxed(a).add(unboxed(b)),
{
    assert(contents_of(a + b) =~= contents_of(a) + contents_of(b));
    lemma_rows_multiset_concat(contents_of(a), contents_of(b));
}

/// In a row at most one job fills a slot, so the load of the row at any
/// moment is the size of one job at most.
pub proof fn lemma_row_load(row: Seq<Arc<Job>>, t: int, h: usize, h_real: usize)
    requires
        is_row(row),
        fits_box(row, h, h_real),
    ensures
        load_at(row, t) * h <= h_real,
        row.len() > 0 ==> exists|i: int| 0 <= i < row.len() && load_at(row, t) <= (#[trigger] row[i]).size,
    decreases row.len(),
{
    let p = |i: int| occupies(*row[i], t);
    if row.len() == 0 {
        lemma_sum_if_none(row, p, false);
        assert(load_at(row, t) * h == 0) by (nonlinear_arith)
            requires
                load_at(row, t) == 0,
        ;
    } else {
        let rest = row.drop_last();
        let last = row.len() - 1;
        assert forall|i: int| 0 <= i < rest.len() implies rest[i] == row[i] by {}
        assert(is_row(rest));
        assert(fits_box(rest, h, h_real));
        let q = |i: int| occupies(*rest[i], t);
        assert forall|i: int| 0 <= i < rest.len() implies #[trigger] p(i) == q(i) by {}
        lemma_sum_if_same(rest, p, q, false);
        if row[last].birth <= t < row[last].death {
            assert forall|i: int| 0 <= i < rest.len() implies !#[trigger] q(i) by {
                assert(row[i].death <= row[last].birth);
            }
            lemma_sum_if_none(rest, q, false);
            assert(load_at(row, t) == row[last].size);
            assert(row[last].size * h <= h_real);
        } else {
            lemma_row_load(rest, t, h, h_real);
            assert(load_at(row, t) == load_at(rest, t));
            if rest.len() > 0 {
                let i = choose|i: int| 0 <= i < rest.len() && load_at(rest, t) <= (#[trigger] rest[i]).size;
                assert(load_at(row, t) <= row[i].size);
            } else {
                lemma_sum_if_none(rest, q, false);
                assert(load_at(row, t) <= row[last].size);
            }
        }
    }
}

/// One more element on both sides keeps two sums of multisets equal.
pub proof fn lemma_add_insert<A>(x: Multiset<A>, h: Multiset<A>, y: Multiset<A>, t: Multiset<A>, j: A)
    requires
        x.add(h) == y.add(t),
    ensures
        x.add(h.insert(j)) == y.add(t.insert(j)),
{
    broadcast use vstd::multiset::group_multiset_axioms;

    assert forall|v: A| x.add(h.insert(j)).count(v) == y.add(t.insert(j)).count(v) by {
        assert(x.add(h).count(v) == y.add(t).count(v));
        assert(x.add(h).count(v) == x.count(v) + h.count(v));
        assert(y.add(t).count(v) == y.count(v) + t.count(v));
        assert(h.insert(j) == h.add(Multiset::singleton(j)));
        assert(t.insert(j) == t.add(Multiset::singleton(j)));
        assert(h.insert(j).count(v) == h.count(v) + Multiset::singleton(j).count(v));
        assert(t.insert(j).count(v) == t.count(v) + Multiset::singleton(j).count(v));
    }
    assert(x.add(h.insert(j)) =~= y.add(t.insert(j)));
}

/// What the boxes hold, box by box; nothing for a job that is no box.
pub open spec fn contents_of(boxes: Seq<Arc<Job>>) -> Seq<Seq<Arc<Job>>> {
    Seq::new(
        boxes.len(),
        |i: int|
            match boxes[i].contents {
                Some(c) => c@,
                None => Seq::empty(),
            },
    )
}

/// All the jobs that the boxes hold, one level down.
pub open spec fn unboxed(boxes: Seq<Arc<Job>>) -> Multiset<Arc<Job>> {
    rows_multiset(contents_of(boxes))
}

/// The job is a box of the given height: it holds jobs, whose load it
/// is high enough for, lives from the earliest birth to the latest
/// death among them, asks for its whole size at no alignment, and counts
/// the jobs of the input that they hold, as far as its counter goes.
pub open spec fn is_box(b: Job, height: usize) -> bool {
    &&& b.size == height
    &&& b.req_size == height
    &&& b.alignment is None
    &&& b.contents matches Some(c) && c.len() > 0 && b.birth == min_birth(c@) && b.death == max_death(
        c@,
    ) && (forall|t: int| #[trigger] load_at(c@, t) <= height) && b.originals_boxed == if originals_in(c@)
        <= u32::MAX {
        originals_in(c@) as u32
    } else {
        u32::MAX
    }
}

/// All are boxes of the given height.
pub open spec fn are_boxes(boxes: Seq<Arc<Job>>, height: usize) -> bool {
    forall|i: int| 0 <= i < boxes.len() ==> is_box(*#[trigger] boxes[i], height)
}

/// A group of `group_size` jobs like these fits a box of `box_size`:
/// the size of each, taken `group_size` times, is within it.
pub open spec fn fits_box(jobs: Seq<Arc<Job>>, group_size: usize, box_size: usize) -> bool {
    forall|i: int| 0 <= i < jobs.len() ==> (#[trigger] jobs[i]).size * group_size <= box_size
}

/// The sum of the sizes.
pub open spec fn total_size(jobs: Seq<Arc<Job>>) -> nat {
    sum_if(jobs, |i: int| true, false)
}

/// No more than `g` parts of which each, taken `g` times, is within `b`
/// add up to `b` at most.
pub proof fn lemma_sizes_fit(jobs: Seq<Arc<Job>>, g: int, b: int)
    requires
        0 < g,
        jobs.len() <= g,
        forall|i: int| 0 <= i < jobs.len() ==> (#[trigger] jobs[i]).size * g <= b,
    ensures
        total_size(jobs) <= b || jobs.len() == 0,
        total_size(jobs) * g <= jobs.len() * b,
    decreases jobs.len(),
{
    let all = |i: int| true;
    if jobs.len() == 0 {
        lemma_sum_if_none(jobs, |i: int| false, false);
        lemma_sum_if_same(jobs, all, |i: int| false, false);
        assert(total_size(jobs) * g == 0) by (nonlinear_arith)
            requires
                total_size(jobs) == 0,
        ;
        assert(jobs.len() * b == 0) by (nonlinear_arith)
            requires
                jobs.len() == 0,
        ;
    } else {
        let rest = jobs.drop_last();
        assert forall|i: int| 0 <= i < rest.len() implies (#[trigger] rest[i]).size * g <= b by {
            assert(rest[i] == jobs[i]);
        }
        lemma_sizes_fit(rest, g, b);
        let s = total_size(rest) as int;
        let x = jobs.last().size as int;
        let n = rest.len() as int;
        assert(total_size(jobs) == s + x);
        assert(jobs[jobs.len() - 1].size * g <= b);
        assert((s + x) * g <= (n + 1) * b) by (nonlinear_arith)
            requires
                s * g <= n * b,
                x * g <= b,
        ;
        assert(0 <= b) by (nonlinear_arith)
            requires
                x * g <= b,
                0 <= x,
                0 < g,
        ;
        assert((n + 1) * b <= g * b) by (nonlinear_arith)
            requires
                n + 1 <= g,
                0 <= b,
        ;
        assert(s + x <= b) by (nonlinear_arith)
            requires
                (s + x) * g <= g * b,
                0 < g,
        ;
    }
}

/// The live sum of jobs is no more than the sum of their sizes.
pub proof fn lemma_load_within_total(jobs: Seq<Arc<Job>>, t: int)
    ensures
        load_at(jobs, t) <= total_size(jobs),
{
    lemma_sum_if_subset(jobs, |i: int| occupies(*jobs[i], t), |i: int| true, false);
}

/// Every job is live at some moment: it dies two steps after its
/// birth at the soonest.
pub open spec fn roomy(jobs: Seq<Arc<Job>>) -> bool {
    forall|i: int| 0 <= i < jobs.len() ==> (#[trigger] jobs[i]).birth + 2 <= jobs[i].death
}

/// Every job lives within the interval.
pub open spec fn all_within(jobs: Seq<Arc<Job>>, start: usize, end: usize) -> bool {
    forall|i: int| 0 <= i < jobs.len() ==> start <= (#[trigger] jobs[i]).birth && jobs[i].death <= end
}

/// Some job is live at moment `t`.
pub open spec fn someone_live(jobs: Seq<Arc<Job>>, t: int) -> bool {
    exists|i: int| 0 <= i < jobs.len() && (#[trigger] jobs[i]).live_at(t)
}

/// The rows and one more hold what the rows hold and what the new row
/// holds.
pub proof fn lemma_rows_multiset_push(rows: Seq<Seq<Arc<Job>>>, row: Seq<Arc<Job>>)
    ensures
        rows_multiset(rows.push(row)) == rows_multiset(rows).add(row.to_multiset()),
{
    assert(rows.push(row).drop_last() =~= rows);
}

/// Rows after rows hold what both hold.
pub proof fn lemma_rows_multiset_concat(a: Seq<Seq<Arc<Job>>>, b: Seq<Seq<Arc<Job>>>)
    ensures
        rows_multiset(a + b) =~= rows_multiset(a).add(rows_multiset(b)),
    decreases b.len(),
{
    if b.len() == 0 {
        assert(a + b =~= a);
    } else {
        assert((a + b).drop_last() =~= a + b.drop_last());
        lemma_rows_multiset_concat(a, b.drop_last());
    }
}

/// A job of a row is among all the jobs of the rows.
pub proof fn lemma_rows_multiset_member(rows: Seq<Seq<Arc<Job>>>, r: int, a: int)
    requires
        0 <= r < rows.len(),
        0 <= a < rows[r].len(),
    ensures
        rows_multiset(rows).count(rows[r][a]) > 0,
    decreases rows.len(),
{
    if r == rows.len() - 1 {
        assert(rows[r].contains(rows[r][a]));
        vstd::seq_lib::to_multiset_contains(rows[r], rows[r][a]);
    } else {
        assert(rows.drop_last()[r] == rows[r]);
        lemma_rows_multiset_member(rows.drop_last(), r, a);
    }
}

/// Where rows hold the jobs of `jobs`, every job of a row is one of
/// `jobs`.
pub proof fn lemma_row_members(jobs: Seq<Arc<Job>>, rows: Seq<Seq<Arc<Job>>>)
    requires
        rows_multiset(rows) == jobs.to_multiset(),
    ensures
        forall|r: int, a: int|
            #![trigger rows[r][a]]
            0 <= r < rows.len() && 0 <= a < rows[r].len() ==> jobs.contains(rows[r][a]),
{
    assert forall|r: int, a: int|
        #![trigger rows[r][a]]
        0 <= r < rows.len() && 0 <= a < rows[r].len() implies jobs.contains(rows[r][a]) by {
        lemma_rows_multiset_member(rows, r, a);
        vstd::seq_lib::to_multiset_contains(jobs, rows[r][a]);
    }
}

/// A job among all the jobs of the rows is in one of the rows.
pub proof fn lemma_rows_multiset_found(rows: Seq<Seq<Arc<Job>>>, x: Arc<Job>)
    requires
        rows_multiset(rows).count(x) > 0,
    ensures
        exists|r: int, a: int|
            #![trigger rows[r][a]]
            0 <= r < rows.len() && 0 <= a < rows[r].len() && rows[r][a] == x,
    decreases rows.len(),
{
    if rows.len() > 0 {
        let last = rows.len() - 1;
        if rows.last().to_multiset().count(x) > 0 {
            vstd::seq_lib::to_multiset_contains(rows.last(), x);
            let a = choose|a: int| 0 <= a < rows.last().len() && rows.last()[a] == x;
            assert(rows[last][a] == x);
        } else {
            lemma_rows_multiset_found(rows.drop_last(), x);
            let (r, a) = choose|r: int, a: int|
                #![trigger rows.drop_last()[r][a]]
                0 <= r < rows.drop_last().len() && 0 <= a < rows.drop_last()[r].len()
                    && rows.drop_last()[r][a] == x;
            assert(rows[r][a] == x);
        }
    }
}

/// A value at two places of a sequence counts twice in its multiset.
pub proof fn lemma_twice_in_seq(s: Seq<Arc<Job>>, a: int, b: int)
    requires
        0 <= a < s.len(),
        0 <= b < s.len(),
        a != b,
        s[a] == s[b],
    ensures
        s.to_multiset().count(s[a]) >= 2,
{
    broadcast use vstd::multiset::group_multiset_axioms;

    let (lo, hi) = if a < b {
        (a, b)
    } else {
        (b, a)
    };
    let rest = s.remove(hi);
    vstd::seq_lib::to_multiset_remove(s, hi);
    assert(rest[lo] == s[a]);
    assert(rest.contains(s[a]));
    vstd::seq_lib::to_multiset_contains(rest, s[a]);
    assert(s.contains(s[hi]));
    vstd::seq_lib::to_multiset_contains(s, s[hi]);
}

/// A job at two places of the rows counts twice among their jobs.
pub proof fn lemma_twice_in_rows(rows: Seq<Seq<Arc<Job>>>, r1: int, a1: int, r2: int, a2: int)
    requires
        0 <= r1 < rows.len(),
        0 <= a1 < rows[r1].len(),
        0 <= r2 < rows.len(),
        0 <= a2 < rows[r2].len(),
        r1 != r2 || a1 != a2,
        rows[r1][a1] == rows[r2][a2],
    ensures
        rows_multiset(rows).count(rows[r1][a1]) >= 2,
    decreases rows.len(),
{
    broadcast use vstd::multiset::group_multiset_axioms;

    let last = rows.len() - 1;
    let x = rows[r1][a1];
    if r1 == last && r2 == last {
        lemma_twice_in_seq(rows[last], a1, a2);
    } else if r1 == last {
        assert(rows.drop_last()[r2] == rows[r2]);
        lemma_rows_multiset_member(rows.drop_last(), r2, a2);
        assert(rows[last].contains(rows[last][a1]));
        vstd::seq_lib::to_multiset_contains(rows[last], x);
    } else if r2 == last {
        assert(rows.drop_last()[r1] == rows[r1]);
        lemma_rows_multiset_member(rows.drop_last(), r1, a1);
        assert(rows[last].contains(rows[last][a2]));
        vstd::seq_lib::to_multiset_contains(rows[last], x);
    } else {
        assert(rows.drop_last()[r1] == rows[r1]);
        assert(rows.drop_last()[r2] == rows[r2]);
        lemma_twice_in_rows(rows.drop_last(), r1, a1, r2, a2);
    }
}

/// Where rows hold the jobs of `jobs`, every job of `jobs` is in a row.
pub proof fn lemma_rows_cover(jobs: Seq<Arc<Job>>, rows: Seq<Seq<Arc<Job>>>, i: int)
    requires
        rows_multiset(rows) == jobs.to_multiset(),
        0 <= i < jobs.len(),
    ensures
        exists|r: int, a: int|
            #![trigger rows[r][a]]
            0 <= r < rows.len() && 0 <= a < rows[r].len() && rows[r][a] == jobs[i],
{
    assert(jobs.contains(jobs[i]));
    vstd::seq_lib::to_multiset_contains(jobs, jobs[i]);
    lemma_rows_multiset_found(rows, jobs[i]);
}

/// How deep the boxes among `jobs` are nested.
pub open spec fn nesting(jobs: Seq<Arc<Job>>) -> nat
    decreases jobs,
{
    if jobs.len() == 0 {
        0
    } else {
        let rest = nesting(jobs.drop_last());
        let last = match jobs.last().contents {
            Some(c) => 1 + nesting(c@),
            None => 0,
        };
        if rest < last {
            last
        } else {
            rest
        }
    }
}

/// What a box holds is nested less deeply than the jobs that the box is
/// among.
pub proof fn lemma_nesting_contents(jobs: Seq<Arc<Job>>, i: int)
    requires
        0 <= i < jobs.len(),
    ensures
        jobs[i].contents matches Some(c) ==> nesting(c@) < nesting(jobs),
    decreases jobs.len(),
{
    if i < jobs.len() - 1 {
        assert(jobs.drop_last()[i] == jobs[i]);
        lemma_nesting_contents(jobs.drop_last(), i);
    }
}

/// Jobs taken from among others are nested no deeper than they.
pub proof fn lemma_nesting_among(part: Seq<Arc<Job>>, whole: Seq<Arc<Job>>)
    requires
        forall|i: int| 0 <= i < part.len() ==> whole.contains(#[trigger] part[i]),
    ensures
        nesting(part) <= nesting(whole),
    decreases part.len(),
{
    if part.len() > 0 {
        assert forall|i: int| 0 <= i < part.drop_last().len() implies whole.contains(
            #[trigger] part.drop_last()[i],
        ) by {
            assert(part.drop_last()[i] == part[i]);
        }
        lemma_nesting_among(part.drop_last(), whole);
        let last = part.last();
        assert(whole.contains(part[part.len() - 1]));
        let w = choose|w: int| 0 <= w < whole.len() && whole[w] == last;
        lemma_nesting_contents(whole, w);
    }
}

/// Some job of the row fills the slot that starts at `t`.
pub open spec fn taken_at(row: Seq<Arc<Job>>, t: int) -> bool {
    exists|b: int| 0 <= b < row.len() && occupies(*#[trigger] row[b], t)
}

/// In every row each job is dead before the next is born, no row is
/// empty, every job of `jobs` is in one row, every job is in the lowest
/// row that was free at its birth, and the rows are as many as the most
/// jobs live at any one moment.
pub open spec fn is_coloring(jobs: Seq<Arc<Job>>, rows: Seq<Seq<Arc<Job>>>) -> bool {
    &&& rows_multiset(rows) == jobs.to_multiset()
    &&& forall|r: int, a: int, lower: int|
        #![trigger rows[r][a], rows[lower]]
        0 <= lower < r < rows.len() && 0 <= a < rows[r].len() ==> taken_at(
            rows[lower],
            rows[r][a].birth as int,
        )
    &&& forall|r: int| 0 <= r < rows.len() ==> (#[trigger] rows[r]).len() > 0
    &&& forall|r: int, a: int, b: int|
        #![trigger rows[r][a], rows[r][b]]
        0 <= r < rows.len() && 0 <= a < b < rows[r].len() ==> rows[r][a].death <= rows[r][b].birth
    &&& is_peak(jobs, rows.len() as nat, true)
}

/// How many rows have a job in them: a row's entry is the index of the
/// job that fills it, or negative.
pub open spec fn count_taken(occupant: Seq<int>) -> nat
    decreases occupant.len(),
{
    if occupant.len() == 0 {
        0
    } else {
        count_taken(occupant.drop_last()) + if occupant.last() >= 0 {
            1nat
        } else {
            0nat
        }
    }
}

/// What a change of one row does to the number of rows taken.
pub proof fn lemma_count_taken_update(occupant: Seq<int>, r: int, v: int)
    requires
        0 <= r < occupant.len(),
    ensures
        count_taken(occupant.update(r, v)) + (if occupant[r] >= 0 {
            1int
        } else {
            0int
        }) == count_taken(occupant) + (if v >= 0 {
            1int
        } else {
            0int
        }),
    decreases occupant.len(),
{
    let changed = occupant.update(r, v);
    if r == occupant.len() - 1 {
        assert(changed.drop_last() =~= occupant.drop_last());
    } else {
        assert(changed.drop_last() =~= occupant.drop_last().update(r, v));
        lemma_count_taken_update(occupant.drop_last(), r, v);
    }
}

/// No more rows are taken than there are.
pub proof fn lemma_count_taken_bound(occupant: Seq<int>)
    ensures
        count_taken(occupant) <= occupant.len(),
        (forall|r: int| 0 <= r < occupant.len() ==> #[trigger] occupant[r] >= 0) ==> count_taken(
            occupant,
        ) == occupant.len(),
    decreases occupant.len(),
{
    if occupant.len() > 0 {
        lemma_count_taken_bound(occupant.drop_last());
        if forall|r: int| 0 <= r < occupant.len() ==> #[trigger] occupant[r] >= 0 {
            assert forall|r: int| 0 <= r < occupant.drop_last().len() implies #[trigger] occupant.drop_last()[r]
                >= 0 by {
                assert(occupant[r] >= 0);
            }
        }
    }
}

/// Job `i` is born and not yet dead once the first `k` events are past.
pub open spec fn active(evts: Seq<Event>, k: int, i: int) -> bool {
    birth_pos(evts, i) < k <= death_pos(evts, i)
}

/// Weight of the jobs active after the first `k` events.
pub open spec fn active_sum(jobs: Seq<Arc<Job>>, evts: Seq<Event>, k: int, unit: bool) -> nat {
    sum_if(jobs, |i: int| active(evts, k, i), unit)
}

/// Passing event `k` changes the active set by the job of that event and
/// by no other: a birth adds it, a death takes it out.
pub proof fn lemma_sweep_step(jobs: Seq<Arc<Job>>, evts: Seq<Event>, k: int, unit: bool)
    requires
        is_traversal(jobs, evts),
        proper_lifetimes(jobs),
        0 <= k < evts.len(),
    ensures
        evts[k].index < jobs.len(),
        evts[k].evt_t == EventKind::Birth ==> !active(evts, k, evts[k].index as int) && active(
            evts,
            k + 1,
            evts[k].index as int,
        ) && active_sum(jobs, evts, k + 1, unit) == active_sum(jobs, evts, k, unit) + weight(
            *jobs[evts[k].index as int],
            unit,
        ),
        evts[k].evt_t == EventKind::Death ==> active(evts, k, evts[k].index as int) && !active(
            evts,
            k + 1,
            evts[k].index as int,
        ) && active_sum(jobs, evts, k, unit) == active_sum(jobs, evts, k + 1, unit) + weight(
            *jobs[evts[k].index as int],
            unit,
        ),
        forall|j: int|
            0 <= j < jobs.len() && j != evts[k].index ==> active(evts, k + 1, j) == #[trigger] active(
                evts,
                k,
                j,
            ),
{
    let i = evts[k].index as int;
    assert(evts[k].wf(jobs));
    lemma_positions_unique(jobs, evts, k, i);
    lemma_birth_before_death(jobs, evts, i);
    assert forall|j: int| 0 <= j < jobs.len() && j != i implies active(evts, k + 1, j)
        == #[trigger] active(evts, k, j) by {
        lemma_positions_unique(jobs, evts, k, j);
    }
    let before = |j: int| active(evts, k, j);
    let after = |j: int| active(evts, k + 1, j);
    if evts[k].evt_t == EventKind::Birth {
        assert(birth_at(evts, k, i));
        assert forall|j: int| 0 <= j < jobs.len() && j != i implies #[trigger] before(j) == after(
            j,
        ) by {
            assert(active(evts, k + 1, j) == active(evts, k, j));
        }
        lemma_sum_if_one_more(jobs, before, after, unit, i);
    } else {
        assert(death_at(evts, k, i));
        assert forall|j: int| 0 <= j < jobs.len() && j != i implies #[trigger] after(j) == before(
            j,
        ) by {
            assert(active(evts, k + 1, j) == active(evts, k, j));
        }
        lemma_sum_if_one_more(jobs, after, before, unit, i);
    }
}

/// A job born earlier is still active when a later one is born exactly
/// if the two are live at a common moment.
pub proof fn lemma_overlap_active(jobs: Seq<Arc<Job>>, evts: Seq<Event>, x: int, j: int)
    requires
        is_traversal(jobs, evts),
        proper_lifetimes(jobs),
        0 <= x < jobs.len(),
        0 <= j < jobs.len(),
        birth_pos(evts, j) < birth_pos(evts, x),
    ensures
        overlap(*jobs[x], *jobs[j]) <==> active(evts, birth_pos(evts, x), j),
{
    let bx = birth_pos(evts, x);
    let bj = birth_pos(evts, j);
    let dj = death_pos(evts, j);
    let dx = death_pos(evts, x);
    assert(birth_at(evts, bx, x));
    assert(birth_at(evts, bj, j));
    assert(death_at(evts, dj, j));
    assert(death_at(evts, dx, x));
    assert(evts[bx].wf(jobs));
    assert(evts[bj].wf(jobs));
    assert(evts[dj].wf(jobs));
    assert(evts[dx].wf(jobs));
    assert(evts[bj].before(&evts[bx]));
    if dj < bx {
        assert(evts[dj].before(&evts[bx]));
    }
    if bx < dj {
        assert(evts[bx].before(&evts[dj]));
    }
}

/// Before the first event no job is active.
pub proof fn lemma_active_start(jobs: Seq<Arc<Job>>, evts: Seq<Event>, unit: bool)
    requires
        is_traversal(jobs, evts),
    ensures
        active_sum(jobs, evts, 0, unit) == 0,
{
    let p = |j: int| active(evts, 0, j);
    assert forall|j: int| 0 <= j < jobs.len() implies !#[trigger] p(j) by {
        assert(birth_at(evts, birth_pos(evts, j), j));
    }
    lemma_sum_if_none(jobs, p, unit);
}

/// Right after a birth at moment `t`, every active job fills the slot `t`.
pub proof fn lemma_active_occupy(jobs: Seq<Arc<Job>>, evts: Seq<Event>, k: int, unit: bool)
    requires
        is_traversal(jobs, evts),
        proper_lifetimes(jobs),
        0 <= k < evts.len(),
        evts[k].evt_t == EventKind::Birth,
    ensures
        active_sum(jobs, evts, k + 1, unit) <= live_sum(jobs, evts[k].time as int, unit),
        forall|j: int|
            0 <= j < jobs.len() && #[trigger] active(evts, k + 1, j) ==> occupies(
                *jobs[j],
                evts[k].time as int,
            ),
{
    let t = evts[k].time as int;
    assert forall|j: int| 0 <= j < jobs.len() && #[trigger] active(evts, k + 1, j) implies occupies(
        *jobs[j],
        t,
    ) by {
        let b = birth_pos(evts, j);
        let d = death_pos(evts, j);
        assert(birth_at(evts, b, j));
        assert(death_at(evts, d, j));
        assert(evts[b].wf(jobs));
        assert(evts[d].wf(jobs));
        if b < k {
            assert(evts[b].before(&evts[k]));
        }
        assert(evts[k].before(&evts[d]));
    }
    let p = |j: int| active(evts, k + 1, j);
    let q = |j: int| occupies(*jobs[j], t);
    assert forall|j: int| 0 <= j < jobs.len() && #[trigger] p(j) implies q(j) by {
        assert(active(evts, k + 1, j));
    }
    lemma_sum_if_subset(jobs, p, q, unit);
}

/// Where the first `k` events are all those up to moment `t`, the active
/// jobs are the ones that fill the slot `t`.
pub proof fn lemma_active_exact(jobs: Seq<Arc<Job>>, evts: Seq<Event>, k: int, t: int, unit: bool)
    requires
        is_traversal(jobs, evts),
        proper_lifetimes(jobs),
        0 <= k <= evts.len(),
        k == 0 || evts[k - 1].time <= t,
        k == evts.len() || t < evts[k].time,
    ensures
        active_sum(jobs, evts, k, unit) == live_sum(jobs, t, unit),
        forall|j: int| 0 <= j < jobs.len() ==> #[trigger] active(evts, k, j) == occupies(*jobs[j], t),
{
    assert forall|j: int| 0 <= j < jobs.len() implies #[trigger] active(evts, k, j) == occupies(
        *jobs[j],
        t,
    ) by {
        let b = birth_pos(evts, j);
        let d = death_pos(evts, j);
        assert(birth_at(evts, b, j));
        assert(death_at(evts, d, j));
        assert(evts[b].wf(jobs));
        assert(evts[d].wf(jobs));
        if k > 0 {
            if b < k - 1 {
                assert(evts[b].before(&evts[k - 1]));
            }
            if d < k - 1 {
                assert(evts[d].before(&evts[k - 1]));
            }
        }
        if k < evts.len() {
            if k < b {
                assert(evts[k].before(&evts[b]));
            }
            if k < d {
                assert(evts[k].before(&evts[d]));
            }
        }
    }
    let p = |j: int| active(evts, k, j);
    let q = |j: int| occupies(*jobs[j], t);
    assert forall|j: int| 0 <= j < jobs.len() implies #[trigger] p(j) == q(j) by {
        assert(active(evts, k, j) == occupies(*jobs[j], t));
    }
    lemma_sum_if_same(jobs, p, q, unit);
}

} // verus!
