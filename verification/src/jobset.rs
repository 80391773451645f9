use crate::helpe::{
    JobError, indices_below, lemma_full_cover_len, lemma_permutation_multiset, lemma_positions_unique, pick,
    pop_first, set_insert, lemma_same_elements, sorted_unstable, key_le, Event, EventKind, Events, is_traversal, birth_at, death_at, birth_pos, death_pos};
use crate::job::{share, ByteSteps, Job, JobSet};
use crate::model::{
    occupies, taken_at, dead_by, live_at_moment, ris, unborn_at, is_row, active, count_taken,
    is_coloring, is_peak, lemma_count_taken_bound, lemma_count_taken_update,
    lemma_rows_multiset_grow_row, lemma_rows_multiset_new_row, rows_multiset, rows_view,
    active_sum, is_load, lemma_active_exact, lemma_active_occupy, lemma_active_start,
    lemma_sweep_step, live_sum, load_fits, proper_lifetimes,
};
use std::collections::BTreeSet;
use std::sync::Arc;
use vstd::prelude::*;

verus! {

/// The key under which the endpoint `a` of a job set sorts: even `a` is
/// the birth of job `a / 2`, odd `a` its death.
pub open spec fn endpoint_key(jobs: Seq<Arc<Job>>, a: int) -> (usize, usize, usize) {
    if a % 2 == 0 {
        (jobs[a / 2].birth, 1usize, (a / 2) as usize)
    } else {
        (jobs[a / 2].death, 0usize, (a / 2) as usize)
    }
}

/// The events of `jobs` in the order in which a sweep meets them: by time,
/// a death before a birth of the same moment.
pub fn get_events(jobs: &JobSet) -> (evts: Events)
    ensures
        is_traversal(jobs@, evts@),
{
    let n = jobs.len();
    let mut keys: Vec<(usize, usize, usize)> = Vec::new();
    let mut i: usize = 0;
    while i < n
        invariant
            n == jobs.len(),
            i <= n,
            keys.len() == 2 * i,
            forall|a: int| 0 <= a < keys.len() ==> #[trigger] keys[a] == endpoint_key(jobs@, a),
        decreases n - i,
    {
        keys.push((jobs[i].birth, 1, i));
        keys.push((jobs[i].death, 0, i));
        i += 1;
    }
    let ghost unsorted = keys@;
    let sorted = sorted_unstable(keys);
    proof {
        assert(unsorted.no_duplicates()) by {
            assert forall|a: int, b: int|
                0 <= a < unsorted.len() && 0 <= b < unsorted.len() && a != b implies unsorted[a]
                != unsorted[b] by {
                assert(unsorted[a] == endpoint_key(jobs@, a));
                assert(unsorted[b] == endpoint_key(jobs@, b));
            }
        }
        lemma_same_elements(unsorted, sorted@);
    }
    let mut evts: Events = Vec::new();
    let mut p: usize = 0;
    while p < sorted.len()
        invariant
            n == jobs.len(),
            p <= sorted.len(),
            sorted.len() == 2 * n,
            evts.len() == p,
            forall|x: (usize, usize, usize)| sorted@.contains(x) ==> unsorted.contains(x),
            forall|a: int| 0 <= a < unsorted.len() ==> #[trigger] unsorted[a] == endpoint_key(jobs@, a),
            unsorted.len() == 2 * n,
            forall|q: int|
                0 <= q < p ==> (#[trigger] evts[q]).wf(jobs@) && evts[q].time == sorted[q].0
                    && kind_rank_usize(evts[q].evt_t) == sorted[q].1 && evts[q].index == sorted[q].2,
        decreases sorted.len() - p,
    {
        let (time, rank, index) = sorted[p];
        proof {
            assert(sorted@.contains(sorted@[p as int]));
            assert(unsorted.contains(sorted@[p as int]));
            let a = choose|a: int| 0 <= a < unsorted.len() && unsorted[a] == sorted@[p as int];
            assert(unsorted[a] == endpoint_key(jobs@, a));
        }
        let evt_t = if rank == 1 {
            EventKind::Birth
        } else {
            EventKind::Death
        };
        evts.push(Event { job: share(&jobs[index]), evt_t, time, index });
        p += 1;
    }
    proof {
        assert forall|p: int, q: int|
            #![trigger evts[p], evts[q]]
            0 <= p < q < evts.len() implies evts[p].before(&evts[q]) by {
            assert(key_le(sorted[p], sorted[q]));
            assert(sorted[p] != sorted[q]);
        }
        assert forall|i: int| 0 <= i < jobs.len() implies birth_at(
            evts@,
            #[trigger] birth_pos(evts@, i),
            i,
        ) by {
            let x = endpoint_key(jobs@, 2 * i);
            assert(unsorted[2 * i] == x);
            assert(unsorted.contains(x));
            assert(sorted@.contains(x));
            let p = choose|p: int| 0 <= p < sorted.len() && sorted@[p] == x;
            assert(birth_at(evts@, p, i));
        }
        assert forall|i: int| 0 <= i < jobs.len() implies death_at(
            evts@,
            #[trigger] death_pos(evts@, i),
            i,
        ) by {
            let x = endpoint_key(jobs@, 2 * i + 1);
            assert(unsorted[2 * i + 1] == x);
            assert(unsorted.contains(x));
            assert(sorted@.contains(x));
            let p = choose|p: int| 0 <= p < sorted.len() && sorted@[p] == x;
            assert(death_at(evts@, p, i));
        }
    }
    evts
}

/// The number under which a kind of event sorts.
pub open spec fn kind_rank_usize(k: EventKind) -> usize {
    match k {
        EventKind::Death => 0,
        EventKind::Birth => 1,
    }
}

/// The load of `jobs`: the most bytes that are live at any one moment.
pub fn get_load(jobs: &JobSet) -> (max: ByteSteps)
    requires
        proper_lifetimes(jobs@),
        load_fits(jobs@),
    ensures
        is_load(jobs@, max as nat),
{
    let evts = get_events(jobs);
    let mut running: usize = 0;
    let mut max: usize = 0;
    let ghost mut peak_at: int = -1;
    proof {
        lemma_active_start(jobs@, evts@, false);
        lemma_active_exact(jobs@, evts@, 0, -1, false);
        assert forall|t: int| (evts.len() == 0 || t < evts[0].time) implies #[trigger] live_sum(
            jobs@,
            t,
            false,
        ) <= 0 by {
            lemma_active_exact(jobs@, evts@, 0, t, false);
        }
    }
    let mut k: usize = 0;
    while k < evts.len()
        invariant
            is_traversal(jobs@, evts@),
            proper_lifetimes(jobs@),
            load_fits(jobs@),
            k <= evts.len(),
            running == active_sum(jobs@, evts@, k as int, false),
            running <= max,
            max <= live_sum(jobs@, peak_at, false),
            forall|t: int|
                (k == evts.len() || t < evts[k as int].time) ==> #[trigger] live_sum(jobs@, t, false)
                    <= max,
        decreases evts.len() - k,
    {
        let ghost old_max = max;
        proof {
            lemma_sweep_step(jobs@, evts@, k as int, false);
            assert(evts[k as int].wf(jobs@));
        }
        match evts[k].evt_t {
            EventKind::Birth => {
                proof {
                    lemma_active_occupy(jobs@, evts@, k as int, false);
                }
                running = running + evts[k].job.size;
                if running > max {
                    max = running;
                    proof {
                        peak_at = evts[k as int].time as int;
                    }
                }
            },
            EventKind::Death => {
                running = running - evts[k].job.size;
            },
        }
        proof {
            assert forall|t: int|
                (k + 1 == evts.len() || t < evts[k + 1].time) implies #[trigger] live_sum(
                jobs@,
                t,
                false,
            ) <= max by {
                if t < evts[k as int].time {
                    assert(live_sum(jobs@, t, false) <= old_max);
                } else {
                    lemma_active_exact(jobs@, evts@, k + 1, t, false);
                }
            }
        }
        k += 1;
    }
    max
}

/// Colours the interval graph of `jobs`: sweeps the events and gives each
/// job, at its birth, the lowest row that is free at that moment. A row is
/// free again once its job has died.
pub fn interval_graph_coloring(jobs: JobSet) -> (rows: Vec<JobSet>)
    requires
        proper_lifetimes(jobs@),
    ensures
        is_coloring(jobs@, rows_view(rows@)),
{
    let evts = get_events(&jobs);
    let n = jobs.len();
    let mut rows: Vec<JobSet> = Vec::new();
    // The rows to draw from, lowest first; the row above the highest one
    // made so far is always among them.
    let mut free_rows: BTreeSet<usize> = BTreeSet::new();
    set_insert(&mut free_rows, 0);
    let mut max_row: usize = 0;
    // The row of each job, by the job's position in `jobs`.
    let mut cheatsheet: Vec<usize> = Vec::new();
    let mut i: usize = 0;
    while i < n
        invariant
            i <= n,
            cheatsheet.len() == i,
        decreases n - i,
    {
        cheatsheet.push(0);
        i += 1;
    }
    let ghost mut occupant: Seq<int> = Seq::empty();
    let ghost mut members: Seq<Seq<int>> = Seq::empty();
    let ghost mut order: Seq<int> = Seq::empty();
    let ghost mut peak_at: int = -1;
    proof {
        lemma_active_start(jobs@, evts@, true);
        lemma_active_exact(jobs@, evts@, 0, -1, true);
        assert forall|t: int| (evts.len() == 0 || t < evts[0].time) implies #[trigger] live_sum(
            jobs@,
            t,
            true,
        ) <= 0 by {
            lemma_active_exact(jobs@, evts@, 0, t, true);
        }
        assert(pick(jobs@, order) =~= Seq::<Arc<Job>>::empty());
        vstd::seq_lib::to_multiset_len(Seq::<Arc<Job>>::empty());
        vstd::multiset::lemma_multiset_empty_len(Seq::<Arc<Job>>::empty().to_multiset());
        assert(rows_view(rows@) =~= Seq::<Seq<Arc<Job>>>::empty());
        assert forall|i: int| 0 <= i < n implies !order.contains(i) && !(birth_pos(evts@, i) < 0) by {
            assert(birth_at(evts@, birth_pos(evts@, i), i));
        }
    }
    let mut k: usize = 0;
    while k < evts.len()
        invariant
            is_traversal(jobs@, evts@),
            proper_lifetimes(jobs@),
            n == jobs.len(),
            k <= evts.len(),
            cheatsheet.len() == n,
            max_row == rows.len(),
            rows.len() <= k,
            occupant.len() == rows.len(),
            members.len() == rows.len(),
            forall|r: int|
                0 <= r < rows.len() ==> #[trigger] occupant[r] == -1 || (0 <= occupant[r] < n
                    && active(evts@, k as int, occupant[r]) && cheatsheet[occupant[r]] == r),
            forall|i: int|
                0 <= i < n && #[trigger] active(evts@, k as int, i) ==> cheatsheet[i] < rows.len()
                    && occupant[cheatsheet[i] as int] == i,
            forall|r: usize|
                #[trigger] free_rows@.contains(r) <==> (r == rows.len() || (r < rows.len()
                    && occupant[r as int] == -1)),
            count_taken(occupant) == active_sum(jobs@, evts@, k as int, true),
            forall|r: int|
                0 <= r < rows.len() ==> (#[trigger] rows[r]).len() > 0 && rows[r].len()
                    == members[r].len(),
            forall|r: int, a: int|
                #![trigger members[r][a]]
                0 <= r < rows.len() && 0 <= a < members[r].len() ==> 0 <= members[r][a] < n
                    && rows[r][a] == jobs[members[r][a]] && (death_pos(evts@, members[r][a]) < k
                    || members[r][a] == occupant[r]),
            forall|r: int, a: int, b: int|
                #![trigger rows[r][a], rows[r][b]]
                0 <= r < rows.len() && 0 <= a < b < rows[r].len() ==> rows[r][a].death
                    <= rows[r][b].birth,
            forall|r: int|
                0 <= r < rows.len() && #[trigger] occupant[r] >= 0 ==> members[r].last()
                    == occupant[r],
            forall|r: int, a: int, lower: int|
                #![trigger rows_view(rows@)[r][a], rows_view(rows@)[lower]]
                0 <= lower < r < rows.len() && 0 <= a < rows[r].len() ==> taken_at(
                    rows_view(rows@)[lower],
                    rows_view(rows@)[r][a].birth as int,
                ),
            rows_multiset(rows_view(rows@)) == pick(jobs@, order).to_multiset(),
            order.no_duplicates(),
            indices_below(order, n as int),
            forall|i: int| 0 <= i < n ==> (order.contains(i) <==> birth_pos(evts@, i) < k),
            rows.len() <= live_sum(jobs@, peak_at, true),
            forall|t: int|
                (k == evts.len() || t < evts[k as int].time) ==> #[trigger] live_sum(jobs@, t, true)
                    <= rows.len(),
        decreases evts.len() - k,
    {
        let index = evts[k].index;
        let ghost old_rows = rows_view(rows@);
        let ghost old_occupant = occupant;
        let ghost old_len = rows.len();
        proof {
            lemma_sweep_step(jobs@, evts@, k as int, true);
            assert(evts[k as int].wf(jobs@));
            lemma_positions_unique(jobs@, evts@, k as int, index as int);
            lemma_count_taken_bound(occupant);
        }
        match evts[k].evt_t {
            EventKind::Birth => {
                proof {
                    lemma_active_occupy(jobs@, evts@, k as int, true);
                    assert(free_rows@.contains(rows.len()));
                }
                let ghost free_before = free_rows@;
                let row_to_fill = match pop_first(&mut free_rows) {
                    Some(least) => least,
                    None => max_row,
                };
                assert(row_to_fill <= rows.len());
                cheatsheet.set(index, row_to_fill);
                let born = share(&evts[k].job);
                proof {
                    // Every lower row holds a job that is live now.
                    assert forall|lower: int| 0 <= lower < row_to_fill implies taken_at(
                        #[trigger] old_rows[lower],
                        born.birth as int,
                    ) by {
                        assert(free_before.contains(lower as usize) ==> row_to_fill <= lower);
                        let o = occupant[lower];
                        assert(o >= 0);
                        assert(active(evts@, k as int, o));
                        assert(active(evts@, k + 1, o));
                        let last = members[lower].len() - 1;
                        assert(members[lower][last] == o);
                        assert(rows[lower][last] == jobs[o]);
                        assert(old_rows[lower][last] == jobs[o]);
                        assert(occupies(*old_rows[lower][last], born.birth as int));
                    }
                }
                if row_to_fill < rows.len() {
                    proof {
                        assert(occupant[row_to_fill as int] == -1);
                        lemma_rows_multiset_grow_row(old_rows, row_to_fill as int, born);
                        lemma_count_taken_update(occupant, row_to_fill as int, index as int);
                        assert forall|a: int| 0 <= a < rows[row_to_fill as int].len() implies (
                        #[trigger] rows[row_to_fill as int][a]).death <= born.birth by {
                            let m = members[row_to_fill as int][a];
                            let d = death_pos(evts@, m);
                            assert(death_at(evts@, d, m));
                            assert(evts[d].wf(jobs@));
                            assert(evts[d].before(&evts[k as int]));
                        }
                        occupant = occupant.update(row_to_fill as int, index as int);
                        members = members.update(
                            row_to_fill as int,
                            members[row_to_fill as int].push(index as int),
                        );
                    }
                    rows[row_to_fill].push(born);
                    proof {
                        assert(rows_view(rows@) =~= old_rows.update(
                            row_to_fill as int,
                            old_rows[row_to_fill as int].push(born),
                        ));
                    }
                } else {
                    proof {
                        assert forall|r: int| 0 <= r < occupant.len() implies #[trigger] occupant[r]
                            >= 0 by {
                            assert(!free_rows@.contains(r as usize) || r as usize
                                == row_to_fill);
                        }
                        lemma_rows_multiset_new_row(old_rows, born);
                        assert(occupant.push(index as int).drop_last() =~= occupant);
                        occupant = occupant.push(index as int);
                        members = members.push(seq![index as int]);
                        peak_at = evts[k as int].time as int;
                    }
                    let mut new_row: JobSet = Vec::new();
                    new_row.push(born);
                    rows.push(new_row);
                    proof {
                        assert(new_row@ =~= seq![born]);
                        assert(rows_view(rows@) =~= old_rows.push(seq![born]));
                    }
                }
                proof {
                    let now = rows_view(rows@);
                    assert forall|r: int, a: int, lower: int|
                        #![trigger now[r][a], now[lower]]
                        0 <= lower < r < rows.len() && 0 <= a < rows[r].len() implies taken_at(
                        now[lower],
                        now[r][a].birth as int,
                    ) by {
                        if r == row_to_fill && a == now[r].len() - 1 {
                            assert(taken_at(old_rows[lower], born.birth as int));
                            let b = choose|b: int|
                                0 <= b < old_rows[lower].len() && occupies(
                                    *#[trigger] old_rows[lower][b],
                                    born.birth as int,
                                );
                            assert(now[lower][b] == old_rows[lower][b]);
                        } else {
                            assert(now[r][a] == old_rows[r][a]);
                            assert(taken_at(old_rows[lower], old_rows[r][a].birth as int));
                            let b = choose|b: int|
                                0 <= b < old_rows[lower].len() && occupies(
                                    *#[trigger] old_rows[lower][b],
                                    old_rows[r][a].birth as int,
                                );
                            assert(now[lower][b] == old_rows[lower][b]);
                        }
                    }
                }
                if free_rows.is_empty() {
                    set_insert(&mut free_rows, max_row + 1);
                    max_row += 1;
                }
                proof {
                    assert(pick(jobs@, order.push(index as int)) =~= pick(jobs@, order).push(born));
                    vstd::seq_lib::to_multiset_build(pick(jobs@, order), born);
                    let longer = order.push(index as int);
                    assert forall|i: int| longer.contains(i) <==> (order.contains(i) || i
                        == index) by {
                        if order.contains(i) {
                            let a = choose|a: int| 0 <= a < order.len() && order[a] == i;
                            assert(longer[a] == i);
                        }
                        if i == index {
                            assert(longer[order.len() as int] == i);
                        }
                        if longer.contains(i) {
                            let a = choose|a: int| 0 <= a < longer.len() && longer[a] == i;
                            if a < order.len() {
                                assert(order[a] == i);
                            }
                        }
                    }
                    assert(longer.no_duplicates()) by {
                        assert(!order.contains(index as int));
                        assert forall|a: int, b: int|
                            0 <= a < longer.len() && 0 <= b < longer.len() && a != b implies longer[a]
                            != longer[b] by {
                            if a < order.len() {
                                assert(order.contains(order[a]));
                            }
                            if b < order.len() {
                                assert(order.contains(order[b]));
                            }
                        }
                    }
                    order = longer;
                }
            },
            EventKind::Death => {
                let row_to_vacate = cheatsheet[index];
                proof {
                    lemma_count_taken_update(occupant, row_to_vacate as int, -1);
                    occupant = occupant.update(row_to_vacate as int, -1);
                }
                set_insert(&mut free_rows, row_to_vacate);
            },
        }
        proof {
            lemma_count_taken_bound(occupant);
            assert forall|i: int| 0 <= i < n && #[trigger] active(evts@, k + 1, i) implies cheatsheet[i]
                < rows.len() && occupant[cheatsheet[i] as int] == i by {
                if i != index {
                    assert(active(evts@, k as int, i));
                }
            }
            assert forall|t: int|
                (k + 1 == evts.len() || t < evts[k + 1].time) implies #[trigger] live_sum(
                jobs@,
                t,
                true,
            ) <= rows.len() by {
                if t >= evts[k as int].time {
                    lemma_active_exact(jobs@, evts@, k + 1, t, true);
                }
            }
            assert forall|i: int| 0 <= i < n implies (order.contains(i) <==> birth_pos(evts@, i) < k
                + 1) by {
                lemma_positions_unique(jobs@, evts@, k as int, i);
            }
        }
        k += 1;
    }
    proof {
        assert forall|v: int| 0 <= v < n implies order.contains(v) by {
            assert(birth_at(evts@, birth_pos(evts@, v), v));
        }
        lemma_full_cover_len(order, n as int);
        lemma_permutation_multiset(jobs@, order);
        assert(is_peak(jobs@, rows.len() as nat, true)) by {
            assert(live_sum(jobs@, peak_at, true) == rows.len());
        }
    }
    rows
}

/// What the gatekeeper asks of a job of the input.
pub open spec fn admissible(j: Job) -> bool {
    &&& j.size > 0
    &&& j.birth < j.death
    &&& j.alignment != Some(0usize)
    &&& j.contents is None
    &&& j.originals_boxed == 0
    &&& j.req_size <= j.size
}

/// What the gatekeeper says of a job that it turns down: the first of
/// its demands that the job does not meet.
pub open spec fn complaint(j: Job) -> Seq<char> {
    if j.size == 0 {
        "Job with 0 size found!"@
    } else if j.birth >= j.death {
        "Job with birth >= death found!"@
    } else if j.alignment == Some(0usize) {
        "Job with 0 alignment found!"@
    } else if j.contents is Some {
        "Unoriginal job found! (non-empty contents)"@
    } else if j.originals_boxed != 0 {
        "Unoriginal job found! (non-zero originals_boxed)"@
    } else {
        "Job with req > alloc size found!"@
    }
}

/// The gatekeeper's finding on one job: `None` where it passes.
fn examine(j: &Job) -> (verdict: Option<String>)
    ensures
        verdict is None <==> admissible(*j),
        verdict matches Some(m) ==> m@ == complaint(*j),
{
    if j.size == 0 {
        Some("Job with 0 size found!".to_owned())
    } else if j.birth >= j.death {
        Some("Job with birth >= death found!".to_owned())
    } else if let Some(0) = j.alignment {
        Some("Job with 0 alignment found!".to_owned())
    } else if !j.is_original() {
        Some("Unoriginal job found! (non-empty contents)".to_owned())
    } else if j.originals_boxed != 0 {
        Some("Unoriginal job found! (non-zero originals_boxed)".to_owned())
    } else if j.size < j.req_size {
        Some("Job with req > alloc size found!".to_owned())
    } else {
        None
    }
}

/// Says whether every job of the set would pass the gatekeeper.
pub fn all_admissible(jobs: &JobSet) -> (ok: bool)
    ensures
        ok == forall|i: int| 0 <= i < jobs.len() ==> admissible(*#[trigger] jobs[i]),
{
    let mut i: usize = 0;
    while i < jobs.len()
        invariant
            i <= jobs.len(),
            forall|k: int| 0 <= k < i ==> admissible(*#[trigger] jobs[k]),
        decreases jobs.len() - i,
    {
        if examine(&jobs[i]).is_some() {
            return false;
        }
        i += 1;
    }
    true
}

/// The gatekeeper to the rest of the library. A job set comes back only
/// if every job in it has a size, dies after it is born, has no alignment
/// of zero, is no box, and was given at least what it asked for.
/// Otherwise the first job that fails comes back with the reason.
pub fn init(in_elts: Vec<Job>) -> (res: Result<JobSet, JobError>)
    ensures
        res is Ok <==> forall|i: int| 0 <= i < in_elts.len() ==> admissible(#[trigger] in_elts[i]),
        res matches Ok(set) ==> set.len() == in_elts.len() && forall|i: int|
            0 <= i < set.len() ==> *(#[trigger] set[i]) == in_elts[i],
        res matches Err(e) ==> exists|i: int|
            0 <= i < in_elts.len() && e.culprit == #[trigger] in_elts[i] && !admissible(in_elts[i])
                && e.message@ == complaint(in_elts[i]) && forall|k: int|
                0 <= k < i ==> admissible(#[trigger] in_elts[k]),
{
    let ghost given = in_elts@;
    let mut elts = in_elts;
    let mut idx: usize = 0;
    while idx < elts.len()
        invariant
            given == in_elts@,
            elts@ == given,
            idx <= elts.len(),
            forall|k: int| 0 <= k < idx ==> admissible(#[trigger] given[k]),
        decreases elts.len() - idx,
    {
        match examine(&elts[idx]) {
            Some(message) => {
                let culprit = elts.remove(idx);
                proof {
                    assert(culprit == given[idx as int]);
                    assert(!admissible(given[idx as int]));
                    assert(message@ == complaint(given[idx as int]));
                }
                return Err(JobError { message, culprit });
            },
            None => {},
        }
        idx += 1;
    }
    // Hand the jobs over in the order in which they came.
    let n = elts.len();
    let mut reversed: Vec<Job> = Vec::new();
    while elts.len() > 0
        invariant
            n == given.len(),
            elts@ == given.take(elts.len() as int),
            elts.len() <= n,
            reversed.len() == n - elts.len(),
            forall|q: int| 0 <= q < reversed.len() ==> #[trigger] reversed[q] == given[n - 1 - q],
        decreases elts.len(),
    {
        let ghost m = elts.len();
        let j = elts.pop().unwrap();
        proof {
            assert(elts@ =~= given.take(m - 1));
        }
        reversed.push(j);
    }
    let mut set: JobSet = Vec::new();
    let ghost turned = reversed@;
    while reversed.len() > 0
        invariant
            n == given.len(),
            turned.len() == n,
            forall|q: int| 0 <= q < n ==> #[trigger] turned[q] == given[n - 1 - q],
            reversed@ == turned.take(reversed.len() as int),
            reversed.len() <= n,
            set.len() == n - reversed.len(),
            forall|q: int| 0 <= q < set.len() ==> *(#[trigger] set[q]) == given[q],
        decreases reversed.len(),
    {
        let ghost m = reversed.len();
        let j = reversed.pop().unwrap();
        proof {
            assert(reversed@ =~= turned.take(m - 1));
            assert(j == turned[m - 1]);
        }
        set.push(Arc::new(j));
    }
    Ok(set)
}

/// The greatest size among `jobs`.
pub fn get_max_size(jobs: &JobSet) -> (max: ByteSteps)
    requires
        jobs.len() > 0,
    ensures
        forall|i: int| 0 <= i < jobs.len() ==> (#[trigger] jobs[i]).size <= max,
        exists|i: int| 0 <= i < jobs.len() && (#[trigger] jobs[i]).size == max,
{
    let mut max = jobs[0].size;
    let mut i: usize = 1;
    while i < jobs.len()
        invariant
            1 <= i <= jobs.len(),
            forall|k: int| 0 <= k < i ==> (#[trigger] jobs[k]).size <= max,
            exists|k: int| 0 <= k < i && (#[trigger] jobs[k]).size == max,
        decreases jobs.len() - i,
    {
        if jobs[i].size > max {
            max = jobs[i].size;
        }
        i += 1;
    }
    max
}

/// The sum of what the jobs say they hold of the input: a box its count,
/// a job of the input nothing.
pub open spec fn boxed_sum(jobs: Seq<Arc<Job>>) -> nat
    decreases jobs.len(),
{
    if jobs.len() == 0 {
        0
    } else {
        boxed_sum(jobs.drop_last()) + jobs.last().originals_boxed as nat
    }
}

/// The jobs of the input held in the boxes of `jobs`, as the boxes count
/// them; the greatest number where the sum is beyond it.
pub fn get_total_originals_boxed(jobs: &JobSet) -> (total: u32)
    ensures
        total == if boxed_sum(jobs@) <= u32::MAX {
            boxed_sum(jobs@) as u32
        } else {
            u32::MAX
        },
{
    let mut total: u32 = 0;
    let mut i: usize = 0;
    while i < jobs.len()
        invariant
            i <= jobs.len(),
            total == if boxed_sum(jobs@.take(i as int)) <= u32::MAX {
                boxed_sum(jobs@.take(i as int)) as u32
            } else {
                u32::MAX
            },
        decreases jobs.len() - i,
    {
        proof {
            assert(jobs@.take(i + 1).drop_last() =~= jobs@.take(i as int));
        }
        total = total.saturating_add(jobs[i].originals_boxed);
        i += 1;
    }
    proof {
        assert(jobs@.take(jobs.len() as int) =~= jobs@);
    }
    total
}

/// `x` ends a stretch of time in which the row has no live job, as far
/// as the first `upto` jobs of the row show: the stretch before the first
/// job, if it begins at `alpha`, or one between a job and the next.
pub open spec fn gap_point_among(row: Seq<Arc<Job>>, alpha: ByteSteps, upto: int, x: ByteSteps) -> bool {
    ||| upto > 0 && alpha < row[0].birth && (x == alpha || x == row[0].birth)
    ||| exists|a: int|
        0 <= a < upto - 1 && (#[trigger] row[a]).death < row[a + 1].birth && (x == row[a].death || x
            == row[a + 1].birth)
}

/// `x` is an end of a stretch of time, within the bounding interval, in
/// which the row has no live job: the stretch before the first job, one
/// between a job and the next, or the one from the last job to `omega`;
/// with no job in the row, the whole interval.
pub open spec fn is_gap_point(
    row: Seq<Arc<Job>>,
    alpha: ByteSteps,
    omega: ByteSteps,
    x: ByteSteps,
) -> bool {
    ||| gap_point_among(row, alpha, row.len() as int, x)
    ||| row.len() == 0 && alpha < omega && (x == alpha || x == omega)
    ||| row.len() > 0 && row.last().death < omega && (x == row.last().death || x == omega)
}

/// Finds the gaps between the jobs of a row, which come in the order of
/// their lifetimes, and returns the endpoints of the gaps.
pub fn gap_finder(row_jobs: &JobSet, bounds: (ByteSteps, ByteSteps)) -> (res: BTreeSet<ByteSteps>)
    requires
        is_row(row_jobs@),
    ensures
        forall|x: ByteSteps| res@.contains(x) <==> is_gap_point(row_jobs@, bounds.0, bounds.1, x),
{
    let (alpha, omega) = bounds;
    let mut res: BTreeSet<ByteSteps> = BTreeSet::new();
    // Where the gap that is open began.
    let mut gap_start = alpha;
    let mut a: usize = 0;
    while a < row_jobs.len()
        invariant
            a <= row_jobs.len(),
            gap_start == if a == 0 {
                alpha
            } else {
                row_jobs[a - 1].death
            },
            forall|x: ByteSteps| res@.contains(x) <==> gap_point_among(row_jobs@, alpha, a as int, x),
        decreases row_jobs.len() - a,
    {
        let ghost before = res@;
        // The birth closes the open gap, the death opens the next.
        let birth = row_jobs[a].birth;
        if gap_start < birth {
            set_insert(&mut res, gap_start);
            set_insert(&mut res, birth);
        }
        gap_start = row_jobs[a].death;
        proof {
            assert forall|x: ByteSteps| res@.contains(x) <==> gap_point_among(
                row_jobs@,
                alpha,
                a + 1,
                x,
            ) by {
                if gap_point_among(row_jobs@, alpha, a + 1, x) && !gap_point_among(
                    row_jobs@,
                    alpha,
                    a as int,
                    x,
                ) {
                    if a > 0 {
                        let w = choose|w: int|
                            0 <= w < a && (#[trigger] row_jobs[w]).death < row_jobs[w + 1].birth && (
                            x == row_jobs[w].death || x == row_jobs[w + 1].birth);
                        assert(w == a - 1);
                    }
                }
                if res@.contains(x) && !before.contains(x) {
                    if a > 0 {
                        assert(row_jobs[a - 1].death < row_jobs[a as int].birth);
                    }
                }
            }
        }
        a += 1;
    }
    if gap_start < omega {
        set_insert(&mut res, gap_start);
        set_insert(&mut res, omega);
    }
    res
}

/// Forms the groups of jobs around the critical points `pts`: splits
/// around the middle point into the jobs live there, those dead by then
/// and those born later, and goes on with the latter two and the points
/// on their side.
pub fn split_ris(jobs: JobSet, pts: &[ByteSteps]) -> (res: Vec<JobSet>)
    ensures
        rows_view(res@) == ris(jobs@, pts@),
    decreases pts@.len(),
{
    let mut res: Vec<JobSet> = Vec::new();
    if pts.len() >= 3 {
        let idx_mid = (pts.len() - 1) / 2;
        let t_mid = pts[idx_mid];
        let mut live_at: JobSet = Vec::new();
        let mut die_before: JobSet = Vec::new();
        let mut born_after: JobSet = Vec::new();
        proof {
            assert(jobs@.take(0) =~= Seq::<Arc<Job>>::empty());
            Seq::<Arc<Job>>::empty().lemma_filter_len(live_at_moment(t_mid));
            Seq::<Arc<Job>>::empty().lemma_filter_len(dead_by(t_mid));
            Seq::<Arc<Job>>::empty().lemma_filter_len(unborn_at(t_mid));
        }
        let mut i: usize = 0;
        while i < jobs.len()
            invariant
                i <= jobs.len(),
                live_at@ == jobs@.take(i as int).filter(live_at_moment(t_mid)),
                die_before@ == jobs@.take(i as int).filter(dead_by(t_mid)),
                born_after@ == jobs@.take(i as int).filter(unborn_at(t_mid)),
            decreases jobs.len() - i,
        {
            proof {
                let done = jobs@.take(i as int);
                assert(jobs@.take(i + 1) =~= done.push(jobs@[i as int]));
                done.lemma_filter_push(jobs@[i as int], live_at_moment(t_mid));
                done.lemma_filter_push(jobs@[i as int], dead_by(t_mid));
                done.lemma_filter_push(jobs@[i as int], unborn_at(t_mid));
            }
            let j = share(&jobs[i]);
            if j.is_live_at(t_mid) {
                live_at.push(j);
            } else if j.dies_before(t_mid) {
                die_before.push(j);
            } else {
                born_after.push(j);
            }
            i += 1;
        }
        proof {
            assert(jobs@.take(jobs.len() as int) =~= jobs@);
        }
        let ghost first = live_at@;
        let ghost before = die_before@;
        let ghost after = born_after@;
        res.push(live_at);
        let ghost mut left: Seq<Seq<Arc<Job>>> = Seq::empty();
        if !die_before.is_empty() {
            let mut sub = split_ris(die_before, vstd::slice::slice_subrange(pts, 0, idx_mid));
            proof {
                left = rows_view(sub@);
            }
            res.append(&mut sub);
        }
        let ghost mut right: Seq<Seq<Arc<Job>>> = Seq::empty();
        if !born_after.is_empty() {
            let mut sub = split_ris(
                born_after,
                vstd::slice::slice_subrange(pts, idx_mid + 1, pts.len()),
            );
            proof {
                right = rows_view(sub@);
            }
            res.append(&mut sub);
        }
        proof {
            assert(rows_view(res@) =~= seq![first] + left + right);
        }
    } else {
        proof {
            assert(rows_view(seq![jobs]) =~= seq![jobs@]);
        }
        res.push(jobs);
    }
    res
}

} // verus!
