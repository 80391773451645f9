use crate::algo::placement::{
    apart, do_best_fit, end_of, gave_up, graph_fits, loose_ids, next_stamp, registry_ok,
    squeezed, squeezed_apart, stamped, walked,
};
use crate::helpe::{
    birth_at, birth_pos, is_traversal, key_le, lemma_positions_unique, lemma_same_elements,
    lookup, record, sorted_unstable, stands, AnalysisResult, BACtrl, EventKind,
    InterferenceGraph, LoosePlacement, PlacedJob, PlacedJobRegistry,
};
use crate::instance::Instance;
use crate::jobset::{admissible, get_events};
use crate::model::{
    active, active_sum, is_load, lemma_active_exact, lemma_active_occupy, lemma_active_start,
    lemma_overlap_active, lemma_sweep_step, live_sum, load_fits, max_death, max_size, min_size,
    overlap, proper_lifetimes,
};
use std::collections::HashMap;
use std::collections::HashSet;
use crate::job::share;
use crate::job::{ByteSteps, Job, JobSet};
use std::sync::Arc;
use vstd::prelude::*;
use vstd::std_specs::iter::IteratorSpec;

verus! {

/// In the graph, `b` is a neighbour of `a`.
pub open spec fn linked(ig: Map<u32, Vec<u32>>, a: u32, b: u32) -> bool {
    ig.contains_key(a) && ig[a]@.contains(b)
}

/// No list of the graph holds a neighbour twice.
pub open spec fn lists_once(ig: Map<u32, Vec<u32>>) -> bool {
    forall|a: u32| #[trigger] ig.contains_key(a) ==> ig[a]@.no_duplicates()
}

/// The registry holds every job that the graph has, and every
/// neighbour that the graph gives one.
pub open spec fn known_to(ig: Map<u32, Vec<u32>>, reg: Map<u32, PlacedJob>) -> bool {
    &&& forall|a: u32| #[trigger] ig.contains_key(a) ==> reg.contains_key(a)
    &&& forall|a: u32, i: int|
        #![trigger ig[a][i]]
        ig.contains_key(a) && 0 <= i < ig[a].len() ==> reg.contains_key(ig[a][i])
}

/// No two neighbours of the graph share an address.
pub open spec fn neighbours_apart(ig: Map<u32, Vec<u32>>, reg: Map<u32, PlacedJob>) -> bool {
    forall|a: u32, i: int|
        #![trigger ig[a][i]]
        ig.contains_key(a) && 0 <= i < ig[a].len() ==> apart(reg[a], reg[ig[a][i]])
}

/// Says whether the two placed jobs share no address.
fn stand_apart(a: &PlacedJob, b: &PlacedJob) -> (r: bool)
    ensures
        r == apart(*a, *b),
{
    let a_end = a.offset as u128 + a.descr.size as u128;
    let b_end = b.offset as u128 + b.descr.size as u128;
    a_end <= b.offset as u128 || b_end <= a.offset as u128
}

/// Says whether no job shares an address with a neighbour of its own.
pub fn placement_is_valid(ig_reg: &(InterferenceGraph, PlacedJobRegistry)) -> (valid: bool)
    requires
        known_to(ig_reg.0@, ig_reg.1@),
    ensures
        valid == neighbours_apart(ig_reg.0@, ig_reg.1@),
{
    broadcast use vstd::std_specs::hash::group_hash_axioms;

    let ig = &ig_reg.0;
    let reg = &ig_reg.1;
    for entry in it: ig.iter()
        invariant
            ig == &ig_reg.0,
            reg == &ig_reg.1,
            it.seq() == vstd::std_specs::hash::spec_hash_map_iter(ig).remaining(),
            known_to(ig@, reg@),
            forall|q: int, i: int|
                #![trigger ig@[*it.seq()[q].0][i]]
                0 <= q < it.index() && 0 <= i < ig@[*it.seq()[q].0].len() ==> apart(
                    reg@[*it.seq()[q].0],
                    reg@[ig@[*it.seq()[q].0][i]],
                ),
    {
        let (id, ns) = entry;
        assert(ig@.contains_key(*id) && ig@[*id] == *ns);
        let this_job = match lookup(reg, *id) {
            Some(pj) => pj,
            None => { return false; },
        };
        let mut i: usize = 0;
        while i < ns.len()
            invariant
                i <= ns.len(),
                ig == &ig_reg.0,
                reg == &ig_reg.1,
                ig@.contains_key(*id),
                ig@[*id] == *ns,
                reg@.contains_key(*id),
                *this_job == reg@[*id],
                known_to(ig@, reg@),
                forall|k: int| 0 <= k < i ==> apart(reg@[*id], reg@[#[trigger] ns[k]]),
            decreases ns.len() - i,
        {
            assert(reg@.contains_key(ig@[*id][i as int]));
            match lookup(reg, ns[i]) {
                Some(that_job) => {
                    if !stand_apart(this_job, that_job) {
                        proof {
                            let a = *id;
                            assert(!apart(ig_reg.1@[a], ig_reg.1@[ig_reg.0@[a][i as int]]));
                        }
                        return false;
                    }
                },
                None => { return false; },
            }
            i += 1;
        }
    }
    proof {
        let v = vstd::std_specs::hash::spec_hash_map_iter(ig).remaining();
        assert forall|a: u32, i: int|
            #![trigger ig@[a][i]]
            ig@.contains_key(a) && 0 <= i < ig@[a].len() implies apart(reg@[a], reg@[ig@[a][i]]) by {
            assert(v.contains((&a, &ig@[a])));
            let q = choose|q: int| 0 <= q < v.len() && v[q] == (&a, &ig@[a]);
            assert(*v[q].0 == a);
        }
    }
    true
}

/// Writes the neighbours of a job into the graph.
fn put_list(ig: &mut InterferenceGraph, id: u32, ns: Vec<u32>)
    ensures
        final(ig)@ == old(ig)@.insert(id, ns),
{
    broadcast use vstd::std_specs::hash::group_hash_axioms;

    ig.insert(id, ns);
}

/// Takes the neighbours of a job out of the graph.
fn take_list(ig: &mut InterferenceGraph, id: u32) -> (res: Option<Vec<u32>>)
    ensures
        final(ig)@ == old(ig)@.remove(id),
        res matches Some(ns) ==> old(ig)@.contains_key(id) && ns == old(ig)@[id],
        res is None ==> !old(ig)@.contains_key(id),
{
    broadcast use vstd::std_specs::hash::group_hash_axioms;

    ig.remove(&id)
}

/// A newborn job enters the registry and the graph: it becomes the
/// neighbour of every job that is live, and they become its neighbours.
/// Then it is live itself.
fn enroll(ig: &mut InterferenceGraph, reg: &mut PlacedJobRegistry, live: &mut Vec<u32>, job: Arc<Job>)
    requires
        !old(reg)@.contains_key(job.id),
        old(ig)@.dom() == old(reg)@.dom(),
        graph_fits(old(ig)@, old(reg)@),
        lists_once(old(ig)@),
        old(live)@.no_duplicates(),
        forall|q: int| 0 <= q < old(live).len() ==> old(reg)@.contains_key(#[trigger] old(live)[q]),
    ensures
        final(reg)@ == old(reg)@.insert(
            job.id,
            PlacedJob { descr: job, offset: 0, times_squeezed: 0 },
        ),
        final(live)@ == old(live)@.push(job.id),
        final(ig)@.dom() == final(reg)@.dom(),
        graph_fits(final(ig)@, final(reg)@),
        lists_once(final(ig)@),
        forall|a: u32, b: u32|
            #![trigger linked(final(ig)@, a, b)]
            linked(final(ig)@, a, b) <==> (linked(old(ig)@, a, b) || (a == job.id && old(
                live,
            )@.contains(b)) || (b == job.id && old(live)@.contains(a))),
{
    let id = job.id;
    let ghost ig0 = ig@;
    let ghost reg0 = reg@;
    let mut init_vec: Vec<u32> = Vec::new();
    let mut q: usize = 0;
    while q < live.len()
        invariant
            q <= live.len(),
            init_vec@ == live@.take(q as int),
        decreases live.len() - q,
    {
        init_vec.push(live[q]);
        proof {
            assert(live@.take(q + 1) =~= live@.take(q as int).push(live@[q as int]));
        }
        q += 1;
    }
    proof {
        assert(live@.take(live.len() as int) =~= live@);
    }
    put_list(ig, id, init_vec);
    record(reg, id, PlacedJob::new(share(&job)));
    let ghost ig1 = ig@;
    let mut q: usize = 0;
    while q < live.len()
        invariant
            q <= live.len(),
            live@ == old(live)@,
            live@.no_duplicates(),
            !reg0.contains_key(id),
            ig0.dom() == reg0.dom(),
            ig1 == ig0.insert(id, init_vec),
            init_vec@ == live@,
            forall|w: int| 0 <= w < live.len() ==> reg0.contains_key(#[trigger] live[w]),
            ig@.dom() == ig1.dom(),
            ig@[id] == init_vec,
            forall|w: int| 0 <= w < q ==> (#[trigger] ig@[live[w]])@ == ig0[live[w]]@.push(id),
            forall|w: int| q <= w < live.len() ==> #[trigger] ig@[live[w]] == ig0[live[w]],
            forall|a: u32| ig0.contains_key(a) && !live@.contains(a) ==> #[trigger] ig@[a] == ig0[a],
        decreases live.len() - q,
    {
        let l = live[q];
        proof {
            assert(live@.contains(l));
            assert(l != id);
        }
        let ghost before = ig@;
        let mut ns = match take_list(ig, l) {
            Some(ns) => ns,
            None => Vec::new(),
        };
        ns.push(id);
        put_list(ig, l, ns);
        proof {
            assert(ig@.dom() =~= before.dom());
            assert forall|w: int| 0 <= w < q + 1 implies (#[trigger] ig@[live[w]])@ == ig0[live[w]]@.push(
                id,
            ) by {
                if w < q {
                    assert(live[w] != l);
                }
            }
            assert forall|w: int| q + 1 <= w < live.len() implies #[trigger] ig@[live[w]]
                == ig0[live[w]] by {
                assert(live[w] != l);
            }
        }
        q += 1;
    }
    live.push(id);
    proof {
        let after = ig@;
        let was_live = old(live)@;
        assert(reg@.dom() =~= reg0.dom().insert(id));
        assert(after.dom() =~= reg@.dom());
        // What each list holds now.
        assert forall|a: u32, b: u32|
            #![trigger linked(after, a, b)]
            linked(after, a, b) <==> (linked(ig0, a, b) || (a == id && was_live.contains(b)) || (b
                == id && was_live.contains(a))) by {
            if a == id {
                assert(!ig0.contains_key(id));
            } else if was_live.contains(a) {
                let w = choose|w: int| 0 <= w < was_live.len() && was_live[w] == a;
                assert(after[was_live[w]]@ == ig0[was_live[w]]@.push(id));
                let longer = ig0[a]@.push(id);
                if ig0[a]@.contains(b) {
                    let x = choose|x: int| 0 <= x < ig0[a]@.len() && ig0[a]@[x] == b;
                    assert(longer[x] == b);
                }
                if b == id {
                    assert(longer[ig0[a]@.len() as int] == id);
                }
                if longer.contains(b) {
                    let x = choose|x: int| 0 <= x < longer.len() && longer[x] == b;
                    if x < ig0[a]@.len() {
                        assert(ig0[a]@[x] == b);
                    }
                }
            } else if ig0.contains_key(a) {
                assert(after[a] == ig0[a]);
                if b == id && ig0[a]@.contains(b) {
                    let x = choose|x: int| 0 <= x < ig0[a]@.len() && ig0[a]@[x] == b;
                    assert(reg0.contains_key(ig0[a][x]));
                }
            }
        }
        assert(lists_once(after)) by {
            assert forall|a: u32| #[trigger] after.contains_key(a) implies after[a]@.no_duplicates() by {
                if a == id {
                    assert(after[a]@ == was_live);
                } else if was_live.contains(a) {
                    let w = choose|w: int| 0 <= w < was_live.len() && was_live[w] == a;
                    assert(after[was_live[w]]@ == ig0[was_live[w]]@.push(id));
                    let shorter = ig0[a]@;
                    assert(ig0.contains_key(a));
                    assert(shorter.no_duplicates());
                    assert forall|x: int| 0 <= x < shorter.len() implies shorter[x] != id by {
                        assert(reg0.contains_key(ig0[a][x]));
                    }
                } else {
                    assert(ig0.contains_key(a));
                    assert(after[a] == ig0[a]);
                }
            }
        }
        assert(graph_fits(after, reg@)) by {
            assert forall|a: u32, i: int|
                #![trigger after[a][i]]
                reg@.contains_key(a) && 0 <= i < after[a].len() implies reg@.contains_key(after[a][i])
                && after[a][i] != a && after[after[a][i]]@.contains(a) by {
                let b = after[a][i];
                assert(after[a]@.contains(b));
                assert(linked(after, a, b));
                if linked(ig0, a, b) {
                    let x = choose|x: int| 0 <= x < ig0[a]@.len() && ig0[a]@[x] == b;
                    assert(reg0.contains_key(ig0[a][x]) && ig0[a][x] != a && ig0[ig0[a][x]]@.contains(
                        a,
                    ));
                    assert(linked(ig0, b, a));
                    assert(linked(after, b, a));
                } else if a == id {
                    let w = choose|w: int| 0 <= w < was_live.len() && was_live[w] == b;
                    assert(reg0.contains_key(was_live[w]));
                    assert(linked(after, b, a));
                } else {
                    let w = choose|w: int| 0 <= w < was_live.len() && was_live[w] == a;
                    assert(reg0.contains_key(was_live[w]));
                    assert(linked(after, b, a));
                }
            }
        }
    }
}

/// A job that has died is live no more.
fn retire(live: &mut Vec<u32>, id: u32)
    requires
        old(live)@.no_duplicates(),
    ensures
        final(live)@.no_duplicates(),
        forall|x: u32| final(live)@.contains(x) <==> (old(live)@.contains(x) && x != id),
{
    let mut q: usize = 0;
    while q < live.len()
        invariant
            q <= live.len(),
            live@ == old(live)@,
            live@.no_duplicates(),
            forall|w: int| 0 <= w < q ==> #[trigger] live[w] != id,
        decreases live.len() - q,
    {
        if live[q] == id {
            let ghost before = live@;
            live.swap_remove(q);
            proof {
                let after = live@;
                assert forall|x: u32| after.contains(x) <==> (before.contains(x) && x != id) by {
                    if after.contains(x) {
                        let w = choose|w: int| 0 <= w < after.len() && after[w] == x;
                        if w == q {
                            assert(before[before.len() - 1] == x);
                        } else {
                            assert(before[w] == x);
                        }
                    }
                    if before.contains(x) && x != id {
                        let w = choose|w: int| 0 <= w < before.len() && before[w] == x;
                        if w == before.len() - 1 {
                            assert(after[q as int] == x);
                        } else {
                            assert(after[w] == x);
                        }
                    }
                }
                assert forall|a: int, b: int|
                    0 <= a < after.len() && 0 <= b < after.len() && a != b implies after[a]
                    != after[b] by {
                    let a0 = if a == q {
                        before.len() - 1
                    } else {
                        a
                    };
                    let b0 = if b == q {
                        before.len() - 1
                    } else {
                        b
                    };
                    assert(after[a] == before[a0]);
                    assert(after[b] == before[b0]);
                }
            }
            return ;
        }
        q += 1;
    }
}

/// No two jobs have one identifier.
pub open spec fn distinct_ids(jobs: Seq<Arc<Job>>) -> bool {
    forall|i: int, j: int|
        #![trigger jobs[i], jobs[j]]
        0 <= i < jobs.len() && 0 <= j < jobs.len() && i != j ==> jobs[i].id != jobs[j].id
}

/// One of the jobs has this identifier.
pub open spec fn has_id(jobs: Seq<Arc<Job>>, id: u32) -> bool {
    exists|i: int| 0 <= i < jobs.len() && (#[trigger] jobs[i]).id == id
}

/// Some two jobs are live at a common moment.
pub open spec fn some_overlap(jobs: Seq<Arc<Job>>) -> bool {
    exists|i: int, j: int|
        #![trigger jobs[i], jobs[j]]
        0 <= i < jobs.len() && 0 <= j < jobs.len() && i != j && overlap(*jobs[i], *jobs[j])
}

/// All jobs have one size.
pub open spec fn uniform(jobs: Seq<Arc<Job>>) -> bool {
    forall|i: int| 0 <= i < jobs.len() ==> (#[trigger] jobs[i]).size == jobs[0].size
}

/// The registry holds the jobs of `jobs`, under their identifiers, and
/// nothing else.
pub open spec fn registry_of(jobs: Seq<Arc<Job>>, reg: Map<u32, PlacedJob>) -> bool {
    &&& forall|i: int|
        0 <= i < jobs.len() ==> reg.contains_key((#[trigger] jobs[i]).id) && reg[jobs[i].id].descr
            == jobs[i]
    &&& forall|id: u32| #[trigger]
        reg.contains_key(id) ==> exists|i: int| 0 <= i < jobs.len() && (#[trigger] jobs[i]).id == id
}

/// The graph has the jobs of `jobs` and links the pairs of them that are
/// live at a common moment, and no others.
pub open spec fn graph_of(jobs: Seq<Arc<Job>>, ig: Map<u32, Vec<u32>>) -> bool {
    forall|i: int, j: int|
        #![trigger jobs[i], jobs[j]]
        0 <= i < jobs.len() && 0 <= j < jobs.len() ==> (linked(ig, jobs[i].id, jobs[j].id) <==> (i != j
            && overlap(*jobs[i], *jobs[j])))
}

/// Registry and graph are made of `jobs` and fit each other, and no
/// list of the graph holds a neighbour twice.
pub open spec fn prepared(jobs: Seq<Arc<Job>>, ig: Map<u32, Vec<u32>>, reg: Map<u32, PlacedJob>) -> bool {
    &&& registry_of(jobs, reg)
    &&& graph_of(jobs, ig)
    &&& graph_fits(ig, reg)
    &&& lists_once(ig)
    &&& ig.dom() == reg.dom()
}

/// Every job of the registry was squeezed in the round with this stamp:
/// no two neighbours share an address, each job lies below `makespan`
/// at an offset where it may stand, and one of them reaches `makespan`.
pub open spec fn placed_all(
    ig: Map<u32, Vec<u32>>,
    reg: Map<u32, PlacedJob>,
    stamp: u32,
    start: int,
    makespan: int,
) -> bool {
    &&& forall|id: u32| reg.contains_key(id) ==> #[trigger] stamped(reg, id, stamp)
    &&& squeezed_apart(ig, reg, stamp)
    &&& forall|id: u32| #[trigger] stamped(reg, id, stamp) ==> end_of(reg[id]) <= makespan
    &&& forall|id: u32| #[trigger]
        stamped(reg, id, stamp) ==> stands(start, reg[id].offset as int, reg[id].descr.alignment)
            || reg[id].offset == 0 || exists|i: int|
            0 <= i < ig[id].len() && stamped(reg, #[trigger] ig[id][i], stamp) && reg[id].offset
                == end_of(reg[ig[id][i]])
    &&& makespan == 0 || exists|id: u32| #[trigger] stamped(reg, id, stamp) && end_of(reg[id]) == makespan
}

/// Finds out what kind of job set it has before it. Sweeps the events
/// once: sums up the load, enters every job into the registry and the
/// interference graph, and notes whether two jobs were ever live
/// together. If none were, or if all jobs have one size, that is the
/// finding. Otherwise the jobs are placed once by the fallback rule --
/// big jobs first, long-lived ones first among equals, each into the
/// first gap that takes it -- and come back with that placement, their
/// load and their horizon, ready for boxing.
pub fn prelude_analysis(jobs: JobSet) -> (res: AnalysisResult)
    requires
        forall|i: int| 0 <= i < jobs.len() ==> admissible(*#[trigger] jobs[i]),
        distinct_ids(jobs@),
        load_fits(jobs@),
    ensures
        match res {
            AnalysisResult::NoOverlap(js) => js@ == jobs@ && !some_overlap(jobs@),
            AnalysisResult::SameSizes(js, ig, reg) => {
                &&& js@ == jobs@
                &&& some_overlap(jobs@)
                &&& uniform(jobs@)
                &&& prepared(jobs@, ig@, reg@)
                &&& forall|id: u32| !#[trigger] stamped(reg@, id, 1)
            },
            AnalysisResult::NeedsBA(ctrl) => {
                &&& some_overlap(jobs@)
                &&& !uniform(jobs@)
                &&& ctrl.input.jobs@ == jobs@
                &&& ctrl.input.wf()
                &&& ctrl.input.info.load == Some(ctrl.real_load)
                &&& ctrl.input.info.min_max_height == Some((min_size(jobs@), max_size(jobs@)))
                &&& is_load(jobs@, ctrl.real_load as nat)
                &&& ctrl.to_box == jobs.len()
                &&& ctrl.dummy is None
                &&& ctrl.max_death == max_death(jobs@)
                &&& forall|i: int| 0 <= i < jobs.len() ==> (#[trigger] jobs[i]).id <= ctrl.max_id
                &&& exists|i: int| 0 <= i < jobs.len() && (#[trigger] jobs[i]).id == ctrl.max_id
                &&& prepared(jobs@, ctrl.ig@, ctrl.reg@)
                &&& forall|id: u32| #[trigger]
                    ctrl.reg@.contains_key(id) ==> ctrl.reg@[id].times_squeezed <= 1
                &&& ctrl.best_opt < usize::MAX ==> placed_all(
                    ctrl.ig@,
                    ctrl.reg@,
                    1,
                    0,
                    ctrl.best_opt as int,
                )
                &&& exists|loose: Seq<(ByteSteps, u32)>| #[trigger]
                    fallback_order(jobs@, loose) && fell_back(loose, ctrl.ig@, ctrl.reg@, ctrl.best_opt)
            },
        },
{
    let n = jobs.len();
    // For detecting overlap.
    let mut last_evt_was_birth = false;
    let mut overlap_exists = false;
    let mut same_sizes = false;
    // For calculating the load.
    let mut running_load: usize = 0;
    let mut max_load: usize = 0;
    // For building the interference graph.
    let mut ig: InterferenceGraph = HashMap::new();
    let mut registry: PlacedJobRegistry = HashMap::new();
    let mut live: Vec<u32> = Vec::new();
    let ghost mut peak_at: int = -1;
    let ghost mut pair: (int, int) = (0, 0);

    let evts = get_events(&jobs);
    proof {
        lemma_active_start(jobs@, evts@, false);
        lemma_active_exact(jobs@, evts@, 0, -1, false);
        assert forall|t: int| (evts.len() == 0 || t < evts[0].time) implies #[trigger] live_sum(
            jobs@,
            t,
            false,
        ) <= 0 by {
            lemma_active_exact(jobs@, evts@, 0, t, false);
        }
        assert forall|i: int| 0 <= i < n implies !(birth_pos(evts@, i) < 0) && !active(evts@, 0, i) by {
            assert(birth_at(evts@, birth_pos(evts@, i), i));
        }
        assert(ig@.dom() =~= registry@.dom());
    }
    let mut k: usize = 0;
    while k < evts.len()
        invariant
            is_traversal(jobs@, evts@),
            proper_lifetimes(jobs@),
            distinct_ids(jobs@),
            load_fits(jobs@),
            n == jobs.len(),
            k <= evts.len(),
            // the load
            running_load == active_sum(jobs@, evts@, k as int, false),
            running_load <= max_load,
            max_load <= live_sum(jobs@, peak_at, false),
            forall|t: int|
                (k == evts.len() || t < evts[k as int].time) ==> #[trigger] live_sum(jobs@, t, false)
                    <= max_load,
            // registry and graph
            forall|i: int|
                0 <= i < n ==> (birth_pos(evts@, i) < k <==> registry@.contains_key(
                    (#[trigger] jobs[i]).id,
                )),
            forall|i: int|
                0 <= i < n && birth_pos(evts@, i) < k ==> registry@[(#[trigger] jobs[i]).id]
                    == (PlacedJob { descr: jobs[i], offset: 0, times_squeezed: 0 }),
            forall|id: u32| #[trigger]
                registry@.contains_key(id) ==> exists|i: int|
                    0 <= i < n && (#[trigger] jobs[i]).id == id,
            ig@.dom() == registry@.dom(),
            graph_fits(ig@, registry@),
            lists_once(ig@),
            forall|i: int, j: int|
                #![trigger jobs[i], jobs[j]]
                0 <= i < n && 0 <= j < n ==> (linked(ig@, jobs[i].id, jobs[j].id) <==> (i != j
                    && overlap(*jobs[i], *jobs[j]) && birth_pos(evts@, i) < k && birth_pos(evts@, j)
                    < k)),
            live@.no_duplicates(),
            forall|i: int| 0 <= i < n ==> (active(evts@, k as int, i) <==> live@.contains((#[trigger] jobs[i]).id)),
            forall|q: int|
                0 <= q < live.len() ==> exists|i: int|
                    0 <= i < n && (#[trigger] jobs[i]).id == #[trigger] live[q],
            // overlap
            overlap_exists ==> 0 <= pair.0 < n && 0 <= pair.1 < n && pair.0 != pair.1 && overlap(
                *jobs[pair.0],
                *jobs[pair.1],
            ),
            !overlap_exists ==> live.len() <= 1 && (last_evt_was_birth <==> live.len() > 0),
            !overlap_exists ==> forall|i: int, j: int|
                #![trigger jobs[i], jobs[j]]
                0 <= i < n && 0 <= j < n && i != j && birth_pos(evts@, i) < k && birth_pos(evts@, j)
                    < k ==> !overlap(*jobs[i], *jobs[j]),
            same_sizes ==> overlap_exists,
            overlap_exists ==> same_sizes == uniform(jobs@),
        decreases evts.len() - k,
    {
        let index = evts[k].index;
        let ghost old_max = max_load;
        let ghost old_ig = ig@;
        let ghost old_live = live@;
        proof {
            lemma_sweep_step(jobs@, evts@, k as int, false);
            assert(evts[k as int].wf(jobs@));
            lemma_positions_unique(jobs@, evts@, k as int, index as int);
            assert forall|i: int| 0 <= i < n implies (birth_pos(evts@, i) == k <==> (i == index
                && evts[k as int].evt_t == EventKind::Birth)) by {
                lemma_positions_unique(jobs@, evts@, k as int, i);
            }
        }
        match evts[k].evt_t {
            EventKind::Birth => {
                proof {
                    lemma_active_occupy(jobs@, evts@, k as int, false);
                    assert forall|j: int| 0 <= j < n && j != index && birth_pos(evts@, j)
                        < k implies (overlap(*jobs[index as int], *jobs[j]) <==> active(
                        evts@,
                        k as int,
                        j,
                    )) by {
                        lemma_overlap_active(jobs@, evts@, index as int, j);
                    }
                }
                running_load = running_load + evts[k].job.size;
                if running_load > max_load {
                    max_load = running_load;
                    proof {
                        peak_at = evts[k as int].time as int;
                    }
                }
                proof {
                    assert forall|q: int| 0 <= q < live.len() implies registry@.contains_key(
                        #[trigger] live[q],
                    ) by {
                        let i = choose|i: int| 0 <= i < n && (#[trigger] jobs[i]).id == live[q];
                        assert(live@.contains(jobs[i].id));
                    }
                }
                enroll(&mut ig, &mut registry, &mut live, share(&evts[k].job));
                if last_evt_was_birth && !overlap_exists && !same_sizes {
                    // Two births in a row: the two jobs are live together.
                    overlap_exists = true;
                    proof {
                        let j = choose|j: int| 0 <= j < n && (#[trigger] jobs[j]).id == old_live[0];
                        assert(old_live.contains(jobs[j].id));
                        assert(active(evts@, k as int, j));
                        pair = (index as int, j);
                    }
                    same_sizes = all_of_size(&jobs, evts[k].job.size);
                    proof {
                        if same_sizes {
                            assert forall|i: int| 0 <= i < jobs.len() implies (#[trigger] jobs[i]).size
                                == jobs[0].size by {
                                assert(jobs[0].size == evts[k as int].job.size);
                            }
                        } else {
                            if uniform(jobs@) {
                                assert(jobs[index as int].size == jobs[0].size);
                            }
                        }
                    }
                }
                last_evt_was_birth = true;
                proof {
                    let id = jobs[index as int].id;
                    assert forall|i: int| 0 <= i < n implies (active(evts@, k + 1, i)
                        <==> live@.contains((#[trigger] jobs[i]).id)) by {
                        if i != index {
                            assert(active(evts@, k as int, i) == active(evts@, k + 1, i));
                            if old_live.contains(jobs[i].id) {
                                let w = choose|w: int| 0 <= w < old_live.len() && old_live[w] == jobs[i].id;
                                assert(live@[w] == jobs[i].id);
                            }
                            if live@.contains(jobs[i].id) {
                                let w = choose|w: int| 0 <= w < live.len() && live@[w] == jobs[i].id;
                                assert(old_live[w] == jobs[i].id);
                            }
                        } else {
                            assert(live@[old_live.len() as int] == id);
                        }
                    }
                    assert(live@.no_duplicates()) by {
                        assert(!old_live.contains(id));
                        assert forall|a: int, b: int|
                            0 <= a < live.len() && 0 <= b < live.len() && a != b implies live@[a]
                            != live@[b] by {
                            if a < old_live.len() {
                                assert(old_live.contains(old_live[a]));
                            }
                            if b < old_live.len() {
                                assert(old_live.contains(old_live[b]));
                            }
                        }
                    }
                    assert forall|q: int| 0 <= q < live.len() implies exists|i: int|
                        0 <= i < n && (#[trigger] jobs[i]).id == #[trigger] live[q] by {
                        if q < old_live.len() {
                            let i = choose|i: int| 0 <= i < n && (#[trigger] jobs[i]).id == old_live[q];
                            assert(jobs[i].id == live[q]);
                        } else {
                            assert(jobs[index as int].id == live[q]);
                        }
                    }
                    assert forall|i: int, j: int|
                        #![trigger jobs[i], jobs[j]]
                        0 <= i < n && 0 <= j < n implies (linked(ig@, jobs[i].id, jobs[j].id) <==> (i
                        != j && overlap(*jobs[i], *jobs[j]) && birth_pos(evts@, i) < k + 1
                        && birth_pos(evts@, j) < k + 1)) by {
                        assert(linked(old_ig, jobs[i].id, jobs[j].id) <==> (i != j && overlap(
                            *jobs[i],
                            *jobs[j],
                        ) && birth_pos(evts@, i) < k && birth_pos(evts@, j) < k));
                        if i == index && j != index {
                            assert(active(evts@, k as int, j) <==> old_live.contains(jobs[j].id));
                        }
                        if j == index && i != index {
                            assert(active(evts@, k as int, i) <==> old_live.contains(jobs[i].id));
                        }
                    }
                    assert forall|id2: u32| #[trigger] registry@.contains_key(id2) implies exists|i: int|
                        0 <= i < n && (#[trigger] jobs[i]).id == id2 by {
                        if id2 == id {
                            assert(jobs[index as int].id == id2);
                        }
                    }
                    if !overlap_exists {
                        assert(old_live.len() == 0);
                        assert forall|i: int, j: int|
                            #![trigger jobs[i], jobs[j]]
                            0 <= i < n && 0 <= j < n && i != j && birth_pos(evts@, i) < k + 1
                                && birth_pos(evts@, j) < k + 1 implies !overlap(
                            *jobs[i],
                            *jobs[j],
                        ) by {
                            if i == index {
                                assert(!old_live.contains(jobs[j].id));
                            }
                            if j == index {
                                assert(!old_live.contains(jobs[i].id));
                            }
                        }
                    }
                }
            },
            EventKind::Death => {
                running_load = running_load - evts[k].job.size;
                if !overlap_exists {
                    last_evt_was_birth = false;
                }
                retire(&mut live, evts[k].job.id);
                proof {
                    let id = jobs[index as int].id;
                    assert forall|i: int| 0 <= i < n implies (active(evts@, k + 1, i)
                        <==> live@.contains((#[trigger] jobs[i]).id)) by {
                        if i != index {
                            assert(active(evts@, k as int, i) == active(evts@, k + 1, i));
                        }
                    }
                    assert forall|q: int| 0 <= q < live.len() implies exists|i: int|
                        0 <= i < n && (#[trigger] jobs[i]).id == #[trigger] live[q] by {
                        assert(live@.contains(live[q]));
                        assert(old_live.contains(live[q]));
                        let w = choose|w: int| 0 <= w < old_live.len() && old_live[w] == live[q];
                        let i = choose|i: int| 0 <= i < n && (#[trigger] jobs[i]).id == old_live[w];
                        assert(jobs[i].id == live[q]);
                    }
                    if !overlap_exists {
                        assert(old_live.contains(id));
                        if live.len() > 0 {
                            assert(live@.contains(live@[0]));
                            assert(old_live.contains(live@[0]));
                            let w = choose|w: int| 0 <= w < old_live.len() && old_live[w] == live@[0];
                            let v = choose|v: int| 0 <= v < old_live.len() && old_live[v] == id;
                        }
                    }
                }
            },
        }
        proof {
            assert forall|t: int|
                (k + 1 == evts.len() || t < evts[k + 1].time) implies #[trigger] live_sum(
                jobs@,
                t,
                false,
            ) <= max_load by {
                if t < evts[k as int].time {
                    assert(live_sum(jobs@, t, false) <= old_max);
                } else {
                    lemma_active_exact(jobs@, evts@, k + 1, t, false);
                }
            }
        }
        k += 1;
    }
    proof {
        assert forall|i: int| 0 <= i < n implies birth_pos(evts@, i) < evts.len() by {
            assert(birth_at(evts@, birth_pos(evts@, i), i));
        }
        assert(registry_of(jobs@, registry@));
        assert(graph_of(jobs@, ig@));
        if !overlap_exists {
            assert(!some_overlap(jobs@));
        }
    }
    if !overlap_exists {
        AnalysisResult::NoOverlap(jobs)
    } else if same_sizes {
        AnalysisResult::SameSizes(jobs, ig, registry)
    } else {
        // The fallback: by size, then by lifetime, each into the first gap.
        let loose = by_size_and_life(&jobs);
        proof {
            assert forall|q: int| 0 <= q < loose.len() implies registry@.contains_key(
                (#[trigger] loose[q]).1,
            ) by {
                assert(has_id(jobs@, loose[q].1));
                let i = choose|i: int| 0 <= i < n && (#[trigger] jobs[i]).id == loose[q].1;
                assert(registry@.contains_key(jobs[i].id));
            }
            assert(registry_ok(registry@)) by {
                assert forall|id: u32| #[trigger] registry@.contains_key(id) implies registry@[id].descr.alignment
                    != Some(0usize) by {
                    let i = choose|i: int| 0 <= i < n && (#[trigger] jobs[i]).id == id;
                    assert(admissible(*jobs[i]));
                }
            }
            assert forall|id: u32| !#[trigger] stamped(registry@, id, next_stamp(0)) by {
                if registry@.contains_key(id) {
                    let i = choose|i: int| 0 <= i < n && (#[trigger] jobs[i]).id == id;
                    assert(registry@[jobs[i].id].times_squeezed == 0);
                }
            }
        }
        let ghost before = registry@;
        let ghost ids = loose_ids(loose@);
        let ghost ranked = loose@;
        let best_opt = do_best_fit(loose, &ig, &mut registry, 0, usize::MAX, true, 0);
        proof {
            assert(fallback_order(jobs@, ranked));
            assert(fell_back(ranked, ig@, registry@, best_opt));
            assert(registry_of(jobs@, registry@)) by {
                assert forall|i: int| 0 <= i < jobs.len() implies registry@.contains_key(
                    (#[trigger] jobs[i]).id,
                ) && registry@[jobs[i].id].descr == jobs[i] by {
                    assert(before.contains_key(jobs[i].id));
                }
                assert forall|id: u32| #[trigger] registry@.contains_key(id) implies exists|i: int|
                    0 <= i < jobs.len() && (#[trigger] jobs[i]).id == id by {
                    assert(before.contains_key(id));
                }
            }
            assert(graph_fits(ig@, registry@));
            assert forall|id: u32| #[trigger] registry@.contains_key(id) implies registry@[id].times_squeezed
                <= 1 by {
                assert(before.contains_key(id));
                let i = choose|i: int| 0 <= i < n && (#[trigger] jobs[i]).id == id;
                assert(before[jobs[i].id].times_squeezed == 0);
            }
            if best_opt < usize::MAX {
                assert forall|id: u32| registry@.contains_key(id) implies #[trigger] stamped(
                    registry@,
                    id,
                    1,
                ) by {
                    assert(before.contains_key(id));
                    let i = choose|i: int| 0 <= i < n && (#[trigger] jobs[i]).id == id;
                    let q = choose|q: int| 0 <= q < ids.len() && ids[q] == jobs[i].id;
                    assert(ids.contains(id));
                }
            }
        }
        let mut instance = Instance::new(jobs);
        let heights = instance.min_max_height();
        let (_, latest_death) = instance.get_horizon();
        let max_id = greatest_id(&instance.jobs);
        instance.info.set_load(max_load);
        instance.info.set_heights(heights);
        AnalysisResult::NeedsBA(
            BACtrl {
                input: instance,
                to_box: n,
                real_load: max_load,
                dummy: None,
                ig,
                reg: registry,
                best_opt,
                max_death: latest_death,
                max_id,
            },
        )
    }
}

/// Says whether every job has the given size.
fn all_of_size(jobs: &JobSet, size: ByteSteps) -> (r: bool)
    ensures
        r == forall|i: int| 0 <= i < jobs.len() ==> (#[trigger] jobs[i]).size == size,
{
    let mut i: usize = 0;
    while i < jobs.len()
        invariant
            i <= jobs.len(),
            forall|q: int| 0 <= q < i ==> (#[trigger] jobs[q]).size == size,
        decreases jobs.len() - i,
    {
        if jobs[i].size != size {
            return false;
        }
        i += 1;
    }
    true
}

/// The greatest identifier among the jobs; zero where there is none.
fn greatest_id(jobs: &JobSet) -> (max_id: u32)
    ensures
        forall|i: int| 0 <= i < jobs.len() ==> (#[trigger] jobs[i]).id <= max_id,
        jobs.len() > 0 ==> exists|i: int| 0 <= i < jobs.len() && (#[trigger] jobs[i]).id == max_id,
{
    let mut max_id: u32 = 0;
    let mut i: usize = 0;
    while i < jobs.len()
        invariant
            i <= jobs.len(),
            forall|q: int| 0 <= q < i ==> (#[trigger] jobs[q]).id <= max_id,
            i > 0 ==> exists|q: int| 0 <= q < i && (#[trigger] jobs[q]).id == max_id,
        decreases jobs.len() - i,
    {
        if jobs[i].id > max_id || i == 0 {
            max_id = jobs[i].id;
        }
        i += 1;
    }
    max_id
}

/// The rank of a job under the fallback rule: the bigger job first,
/// among equals the one that lives longer, among those the one that
/// comes first in the set.
pub open spec fn fallback_rank(jobs: Seq<Arc<Job>>, i: int) -> (usize, usize, usize) {
    (
        (usize::MAX - jobs[i].size) as usize,
        (usize::MAX - (jobs[i].death - jobs[i].birth - 1)) as usize,
        i as usize,
    )
}

/// What the fallback placement leaves behind: every job stands where
/// the walk over its neighbours that were taken before it found the
/// first gap; or, where no makespan comes of it, squeezing gave up.
pub open spec fn fell_back(
    loose: Seq<(ByteSteps, u32)>,
    ig: Map<u32, Vec<u32>>,
    reg: Map<u32, PlacedJob>,
    best_opt: ByteSteps,
) -> bool {
    if best_opt < usize::MAX {
        forall|w: int| 0 <= w < loose.len() ==> #[trigger] walked(loose, ig, reg, 0, true, w)
    } else {
        gave_up(loose, ig, reg, 1, usize::MAX as int, 0, true)
    }
}

/// The loose placement holds the jobs in the order of the fallback
/// rule, each with its place in that order as its loose offset, and,
/// where no two jobs have one identifier, each once.
pub open spec fn fallback_order(jobs: Seq<Arc<Job>>, loose: Seq<(ByteSteps, u32)>) -> bool {
    &&& loose.len() == jobs.len()
    &&& forall|q: int| 0 <= q < loose.len() ==> (#[trigger] loose[q]).0 == q
    &&& forall|q: int| 0 <= q < loose.len() ==> has_id(jobs, (#[trigger] loose[q]).1)
    &&& forall|i: int| 0 <= i < jobs.len() ==> loose_ids(loose).contains((#[trigger] jobs[i]).id)
    &&& distinct_ids(jobs) ==> loose_ids(loose).no_duplicates()
    &&& exists|order: Seq<int>|
        order.len() == jobs.len() && (forall|q: int|
            0 <= q < order.len() ==> 0 <= #[trigger] order[q] < jobs.len() && loose[q].1 == jobs[order[q]].id)
            && (forall|p: int, q: int|
            #![trigger order[p], order[q]]
            0 <= p <= q < order.len() ==> key_le(fallback_rank(jobs, order[p]), fallback_rank(jobs, order[q])))
}

/// The jobs in the order of the fallback rule, each with its place in
/// that order as its loose offset.
fn by_size_and_life(jobs: &JobSet) -> (loose: LoosePlacement)
    requires
        proper_lifetimes(jobs@),
    ensures
        fallback_order(jobs@, loose@),
{
    let mut keys: Vec<(usize, usize, usize)> = Vec::new();
    let mut i: usize = 0;
    while i < jobs.len()
        invariant
            i <= jobs.len(),
            proper_lifetimes(jobs@),
            keys.len() == i,
            forall|q: int| 0 <= q < i ==> #[trigger] keys[q] == fallback_rank(jobs@, q),
        decreases jobs.len() - i,
    {
        let j = &jobs[i];
        keys.push((usize::MAX - j.size, usize::MAX - j.lifetime(), i));
        i += 1;
    }
    let ghost unsorted = keys@;
    let sorted = sorted_unstable(keys);
    proof {
        lemma_same_elements(unsorted, sorted@);
    }
    let mut loose: LoosePlacement = Vec::new();
    let ghost mut order: Seq<int> = Seq::empty();
    let mut q: usize = 0;
    while q < sorted.len()
        invariant
            q <= sorted.len(),
            sorted.len() == jobs.len(),
            unsorted.len() == jobs.len(),
            forall|w: int| 0 <= w < unsorted.len() ==> #[trigger] unsorted[w] == fallback_rank(jobs@, w),
            forall|x: (usize, usize, usize)| unsorted.contains(x) <==> sorted@.contains(x),
            loose.len() == q,
            order.len() == q,
            forall|w: int| 0 <= w < q ==> (#[trigger] loose[w]).0 == w,
            forall|w: int|
                0 <= w < q ==> 0 <= #[trigger] order[w] < jobs.len() && loose[w].1 == jobs[order[w]].id
                    && sorted[w] == fallback_rank(jobs@, order[w]),
        decreases sorted.len() - q,
    {
        let index = sorted[q].2;
        proof {
            let x = sorted@[q as int];
            assert(sorted@.contains(x));
            assert(unsorted.contains(x));
            let w = choose|w: int| 0 <= w < unsorted.len() && unsorted[w] == x;
            assert(unsorted[w] == fallback_rank(jobs@, w));
            assert(index == w);
            order = order.push(index as int);
        }
        loose.push((q, jobs[index].id));
        q += 1;
    }
    proof {
        if distinct_ids(jobs@) {
            assert(unsorted.no_duplicates()) by {
                assert forall|a: int, b: int|
                    0 <= a < unsorted.len() && 0 <= b < unsorted.len() && a != b implies unsorted[a]
                    != unsorted[b] by {
                    assert(unsorted[a] == fallback_rank(jobs@, a));
                    assert(unsorted[b] == fallback_rank(jobs@, b));
                }
            }
            unsorted.lemma_multiset_has_no_duplicates();
            sorted@.lemma_multiset_has_no_duplicates_conv();
            assert forall|a: int, b: int|
                0 <= a < loose.len() && 0 <= b < loose.len() && a != b implies loose_ids(loose@)[a]
                != loose_ids(loose@)[b] by {
                assert(sorted[a] != sorted[b]);
                assert(sorted[a] == fallback_rank(jobs@, order[a]));
                assert(sorted[b] == fallback_rank(jobs@, order[b]));
                assert(order[a] != order[b]);
                assert(loose[a].1 == jobs[order[a]].id && loose[b].1 == jobs[order[b]].id);
            }
        }
        assert forall|q: int| 0 <= q < loose.len() implies has_id(jobs@, (#[trigger] loose[q]).1) by {
            let i = order[q];
            assert(0 <= i < jobs.len() && jobs[i].id == loose[q].1);
        }
        assert forall|i: int| 0 <= i < jobs.len() implies loose_ids(loose@).contains(
            (#[trigger] jobs[i]).id,
        ) by {
            assert(unsorted.contains(unsorted[i]));
            let w = choose|w: int| 0 <= w < sorted.len() && sorted@[w] == unsorted[i];
            assert(order[w] == i);
            assert(loose_ids(loose@)[w] == jobs[i].id);
        }
        assert forall|p: int, q: int|
            #![trigger order[p], order[q]]
            0 <= p <= q < order.len() implies key_le(
            fallback_rank(jobs@, order[p]),
            fallback_rank(jobs@, order[q]),
        ) by {
            assert(key_le(sorted[p], sorted[q]));
        }
    }
    loose
}

/// Says whether the sizes of all the jobs add up within the machine
/// word. Where they do, so does the load.
pub fn sizes_fit(jobs: &JobSet) -> (ok: bool)
    ensures
        ok == (crate::model::total_size(jobs@) <= usize::MAX),
        ok ==> load_fits(jobs@),
{
    let mut total: usize = 0;
    let mut i: usize = 0;
    proof {
        assert(jobs@.take(0) =~= Seq::<Arc<Job>>::empty());
        crate::model::lemma_sum_if_none(jobs@.take(0), |k: int| false, false);
        crate::model::lemma_sum_if_same(jobs@.take(0), |k: int| true, |k: int| false, false);
    }
    while i < jobs.len()
        invariant
            i <= jobs.len(),
            total == crate::model::total_size(jobs@.take(i as int)),
        decreases jobs.len() - i,
    {
        proof {
            assert(jobs@.take(i + 1).drop_last() =~= jobs@.take(i as int));
            lemma_total_grows(jobs@, i + 1);
        }
        total = match total.checked_add(jobs[i].size) {
            Some(t) => t,
            None => { return false; },
        };
        i += 1;
    }
    proof {
        assert(jobs@.take(jobs.len() as int) =~= jobs@);
        assert forall|t: int| #[trigger] live_sum(jobs@, t, false) <= usize::MAX by {
            crate::model::lemma_load_within_total(jobs@, t);
        }
    }
    true
}

/// The sizes of the first jobs add up to no more than those of all.
proof fn lemma_total_grows(jobs: Seq<Arc<Job>>, k: int)
    requires
        0 <= k <= jobs.len(),
    ensures
        crate::model::total_size(jobs.take(k)) <= crate::model::total_size(jobs),
    decreases jobs.len() - k,
{
    if k < jobs.len() {
        assert(jobs.take(k + 1).drop_last() =~= jobs.take(k));
        lemma_total_grows(jobs, k + 1);
    } else {
        assert(jobs.take(k) =~= jobs);
    }
}

/// Says whether no two jobs have one identifier.
pub fn has_distinct_ids(jobs: &JobSet) -> (ok: bool)
    ensures
        ok == distinct_ids(jobs@),
{
    broadcast use vstd::std_specs::hash::group_hash_axioms;

    let mut seen: HashSet<u32> = HashSet::new();
    let mut i: usize = 0;
    while i < jobs.len()
        invariant
            i <= jobs.len(),
            forall|k: int| 0 <= k < i ==> seen@.contains((#[trigger] jobs[k]).id),
            forall|id: u32| seen@.contains(id) ==> exists|k: int| 0 <= k < i && (#[trigger] jobs[k]).id == id,
            forall|a: int, b: int|
                #![trigger jobs[a], jobs[b]]
                0 <= a < i && 0 <= b < i && a != b ==> jobs[a].id != jobs[b].id,
        decreases jobs.len() - i,
    {
        let fresh = seen.insert(jobs[i].id);
        if !fresh {
            proof {
                let k = choose|k: int| 0 <= k < i && (#[trigger] jobs[k]).id == jobs[i as int].id;
                assert(jobs[k].id == jobs[i as int].id);
            }
            return false;
        }
        proof {
            assert forall|id: u32| seen@.contains(id) implies exists|k: int|
                0 <= k < i + 1 && (#[trigger] jobs[k]).id == id by {
                if id == jobs[i as int].id {
                    assert(jobs[i as int].id == id);
                } else {
                    let k = choose|k: int| 0 <= k < i && (#[trigger] jobs[k]).id == id;
                    assert(jobs[k].id == id);
                }
            }
        }
        i += 1;
    }
    true
}

/// How many of the first `upto` jobs are live at a common moment with
/// the job `j`.
pub open spec fn meets_among(jobs: Seq<Arc<Job>>, j: Arc<Job>, upto: int) -> nat
    decreases upto,
{
    if upto <= 0 {
        0
    } else {
        meets_among(jobs, j, upto - 1) + if overlap(*jobs[upto - 1], *j) {
            1nat
        } else {
            0nat
        }
    }
}

/// How many pairs of the jobs are live at a common moment.
pub open spec fn conflicts(jobs: Seq<Arc<Job>>) -> nat
    decreases jobs.len(),
{
    if jobs.len() == 0 {
        0
    } else {
        conflicts(jobs.drop_last()) + meets_among(jobs, jobs.last(), jobs.len() - 1)
    }
}

/// Counts the pairs of jobs that are live at a common moment; `None`
/// where they are more than the machine word can count.
pub fn count_conflicts(jobs: &JobSet) -> (res: Option<usize>)
    ensures
        res is Some <==> conflicts(jobs@) <= usize::MAX,
        res matches Some(n) ==> n == conflicts(jobs@),
{
    let mut total: usize = 0;
    let mut b: usize = 0;
    proof {
        assert(jobs@.take(0) =~= Seq::<Arc<Job>>::empty());
    }
    while b < jobs.len()
        invariant
            b <= jobs.len(),
            total == conflicts(jobs@.take(b as int)),
        decreases jobs.len() - b,
    {
        let mut met: usize = 0;
        let mut a: usize = 0;
        while a < b
            invariant
                a <= b < jobs.len(),
                met == meets_among(jobs@, jobs[b as int], a as int),
                met <= a,
            decreases b - a,
        {
            if jobs[a].birth < jobs[b].death && jobs[b].birth < jobs[a].death {
                met += 1;
            }
            a += 1;
        }
        proof {
            let part = jobs@.take(b + 1);
            assert(part.drop_last() =~= jobs@.take(b as int));
            assert(part.last() == jobs[b as int]);
            lemma_meets_same(jobs@, part, jobs[b as int], b as int);
        }
        total = match total.checked_add(met) {
            Some(t) => t,
            None => {
                proof {
                    lemma_conflicts_grow(jobs@, b + 1);
                }
                return None;
            },
        };
        b += 1;
    }
    proof {
        assert(jobs@.take(jobs.len() as int) =~= jobs@);
    }
    Some(total)
}

/// What a job meets among the first jobs of a set, it meets among the
/// first jobs of a set that begins alike.
proof fn lemma_meets_same(jobs: Seq<Arc<Job>>, part: Seq<Arc<Job>>, j: Arc<Job>, upto: int)
    requires
        0 <= upto <= part.len() <= jobs.len(),
        forall|i: int| 0 <= i < upto ==> part[i] == jobs[i],
    ensures
        meets_among(part, j, upto) == meets_among(jobs, j, upto),
    decreases upto,
{
    if upto > 0 {
        lemma_meets_same(jobs, part, j, upto - 1);
    }
}

/// The first jobs of a set have no more conflicts than all of them.
proof fn lemma_conflicts_grow(jobs: Seq<Arc<Job>>, k: int)
    requires
        0 <= k <= jobs.len(),
    ensures
        conflicts(jobs.take(k)) <= conflicts(jobs),
    decreases jobs.len() - k,
{
    if k < jobs.len() {
        assert(jobs.take(k + 1).drop_last() =~= jobs.take(k));
        lemma_conflicts_grow(jobs, k + 1);
    } else {
        assert(jobs.take(k) =~= jobs);
    }
}

/// Says whether every job is live at some moment.
pub fn all_roomy(jobs: &JobSet) -> (ok: bool)
    ensures
        ok == crate::model::roomy(jobs@),
{
    let mut i: usize = 0;
    while i < jobs.len()
        invariant
            i <= jobs.len(),
            forall|k: int| 0 <= k < i ==> (#[trigger] jobs[k]).birth + 2 <= jobs[k].death,
        decreases jobs.len() - i,
    {
        if jobs[i].death < 2 || jobs[i].birth > jobs[i].death - 2 {
            return false;
        }
        i += 1;
    }
    true
}

} // verus!
