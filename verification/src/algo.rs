pub mod boxing;
pub mod placement;

use crate::algo::placement::{
    apart, below, do_best_fit, end_of, ends_within, kept_stack, loose_end, loose_ids,
    next_stamp, placed_by, reached, registry_ok, squeezed, stacks, stamped, unbox_and_squeeze,
};
use crate::analyze::{
    distinct_ids, fallback_order, fell_back, linked, placed_all, prelude_analysis, prepared,
    registry_of, some_overlap, uniform,
};
use crate::helpe::{
    corrected, lemma_corrected, record, stands, AnalysisResult, InterferenceGraph,
    LoosePlacement, PlacedJob, PlacedJobRegistry,
};
use crate::instance::Instance;
use crate::job::{share, ByteSteps, Job, JobSet, DUMMY_ID};
use crate::jobset::{admissible, get_max_size, interval_graph_coloring};
use crate::laws::{
    load_is_lower_bound, load_of_lone_jobs, no_clash, tops_at, valid_placement,
};
use crate::model::{
    is_coloring, is_load, is_peak, lemma_row_members, lemma_rows_cover, lemma_twice_in_rows,
    live_sum, load_fits, occupies, overlap, rows_view, taken_at,
};
use std::collections::HashMap;
use std::sync::Arc;
use vstd::prelude::*;

verus! {

/// Every job stands at an offset that its alignment allows, or at zero,
/// or right above a neighbour.
pub open spec fn well_landed(ig: Map<u32, Vec<u32>>, reg: Map<u32, PlacedJob>, start: int) -> bool {
    forall|id: u32| #[trigger]
        reg.contains_key(id) ==> stands(start, reg[id].offset as int, reg[id].descr.alignment)
            || reg[id].offset == 0 || exists|i: int|
            0 <= i < ig[id].len() && reg.contains_key(#[trigger] ig[id][i]) && reg[id].offset == end_of(
                reg[ig[id][i]],
            )
}

/// A placement of all the jobs that came out of a round of squeezing is
/// a valid placement of them, no lower than their load.
pub proof fn lemma_placed_all_is_valid(
    jobs: Seq<Arc<Job>>,
    ig: Map<u32, Vec<u32>>,
    reg: Map<u32, PlacedJob>,
    stamp: u32,
    start: int,
    makespan: int,
    load: nat,
)
    requires
        prepared(jobs, ig, reg),
        forall|i: int| 0 <= i < jobs.len() ==> admissible(*#[trigger] jobs[i]),
        placed_all(ig, reg, stamp, start, makespan),
        0 <= makespan,
        is_load(jobs, load),
    ensures
        valid_placement(jobs, reg, makespan),
        tops_at(jobs, reg, makespan),
        load <= makespan,
        well_landed(ig, reg, start),
{
    if makespan != 0 {
        let top = choose|top: u32| #[trigger] stamped(reg, top, stamp) && end_of(reg[top]) == makespan;
        let i = choose|i: int| 0 <= i < jobs.len() && (#[trigger] jobs[i]).id == top;
        assert(end_of(reg[jobs[i].id]) == makespan);
    }
    assert forall|i: int| 0 <= i < jobs.len() implies end_of(#[trigger] reg[jobs[i].id]) <= makespan by {
        assert(reg.contains_key(jobs[i].id));
        assert(stamped(reg, jobs[i].id, stamp));
    }
    assert forall|i: int, j: int|
        #![trigger jobs[i], jobs[j]]
        0 <= i < jobs.len() && 0 <= j < jobs.len() && i != j && overlap(
            *jobs[i],
            *jobs[j],
        ) implies crate::algo::placement::apart(reg[jobs[i].id], reg[jobs[j].id]) by {
        assert(linked(ig, jobs[i].id, jobs[j].id));
        let x = choose|x: int| 0 <= x < ig[jobs[i].id]@.len() && ig[jobs[i].id]@[x] == jobs[j].id;
        assert(reg.contains_key(jobs[i].id) && reg.contains_key(jobs[j].id));
        assert(stamped(reg, jobs[i].id, stamp));
        assert(stamped(reg, ig[jobs[i].id][x], stamp));
    }
    assert forall|i: int| 0 <= i < jobs.len() implies (#[trigger] jobs[i]).size > 0 by {
        assert(admissible(*jobs[i]));
    }
    load_is_lower_bound(jobs, reg, makespan, load);
    assert forall|id: u32| #[trigger] reg.contains_key(id) implies stands(
        start,
        reg[id].offset as int,
        reg[id].descr.alignment,
    ) || reg[id].offset == 0 || exists|i: int|
        0 <= i < ig[id].len() && reg.contains_key(#[trigger] ig[id][i]) && reg[id].offset == end_of(
            reg[ig[id][i]],
        ) by {
        assert(stamped(reg, id, stamp));
        if !stands(start, reg[id].offset as int, reg[id].descr.alignment) && reg[id].offset != 0 {
            let i = choose|i: int|
                0 <= i < ig[id].len() && stamped(reg, #[trigger] ig[id][i], stamp) && reg[id].offset
                    == end_of(reg[ig[id][i]]);
            assert(reg.contains_key(ig[id][i]));
        }
    }
}

/// Where the identifiers of a round of squeezing are as many as the
/// jobs of the registry, every job of the registry was squeezed.
pub proof fn lemma_all_squeezed(
    ig: Map<u32, Vec<u32>>,
    reg: Map<u32, PlacedJob>,
    ids: Seq<u32>,
    stamp: u32,
    start: int,
    makespan: int,
)
    requires
        squeezed(ig, reg, ids, stamp, start, makespan),
        reg.dom().finite(),
        ids.len() == reg.dom().len(),
    ensures
        placed_all(ig, reg, stamp, start, makespan),
{
    ids.unique_seq_to_set();
    vstd::seq_lib::seq_to_set_is_finite(ids);
    assert(ids.to_set().subset_of(reg.dom())) by {
        assert forall|id: u32| ids.to_set().contains(id) implies reg.dom().contains(id) by {
            assert(ids.contains(id));
            assert(stamped(reg, id, stamp));
        }
    }
    vstd::set_lib::lemma_subset_equality(ids.to_set(), reg.dom());
    assert forall|id: u32| reg.contains_key(id) implies #[trigger] stamped(reg, id, stamp) by {
        assert(ids.to_set().contains(id));
        assert(ids.contains(id));
    }
}

/// The state of the search for a placement better than the fallback
/// one: the best placement so far, and what is left to spend.
pub struct Refinement {
    jobs: Ghost<Seq<Arc<Job>>>,
    ig: InterferenceGraph,
    /// The registry that the trials write into.
    reg: PlacedJobRegistry,
    /// The best placement so far.
    final_placement: PlacedJobRegistry,
    best_opt: ByteSteps,
    heuristic_opt: ByteSteps,
    real_load: ByteSteps,
    target_opt: ByteSteps,
    lives_left: u32,
    total_iters: u32,
    dumb_id: u32,
    start_address: ByteSteps,
    /// Where addresses begin for the best placement: zero for the
    /// fallback one.
    base: ByteSteps,
    max_death: ByteSteps,
    max_id: u32,
}

/// What came of a job set.
pub enum Outcome {
    /// The jobs are placed: the registry, and the makespan.
    Placed(PlacedJobRegistry, ByteSteps),
    /// The jobs have to be boxed: the state of the search, which begins
    /// with the fallback placement, and the instance to box.
    Refine(Refinement, Instance),
}

impl Refinement {
    /// The jobs that are being placed.
    pub closed spec fn jobs(&self) -> Seq<Arc<Job>> {
        self.jobs@
    }

    /// The best placement so far.
    pub closed spec fn placement(&self) -> Map<u32, PlacedJob> {
        self.final_placement@
    }

    /// The graph of the jobs.
    pub closed spec fn graph(&self) -> Map<u32, Vec<u32>> {
        self.ig@
    }

    /// The makespan of the best placement so far.
    pub closed spec fn makespan(&self) -> ByteSteps {
        self.best_opt
    }

    /// The makespan of the fallback placement.
    pub closed spec fn fallback(&self) -> ByteSteps {
        self.heuristic_opt
    }

    /// The load of the jobs.
    pub closed spec fn load(&self) -> ByteSteps {
        self.real_load
    }

    /// The trials that may still be made.
    pub closed spec fn lives(&self) -> u32 {
        self.lives_left
    }

    /// The makespan to be reached.
    pub closed spec fn target(&self) -> ByteSteps {
        self.target_opt
    }

    /// Where addresses begin for the best placement so far.
    pub closed spec fn base(&self) -> ByteSteps {
        self.base
    }

    /// Where addresses begin for the trials.
    pub closed spec fn origin(&self) -> ByteSteps {
        self.start_address
    }

    /// The registry that the trials work on.
    pub closed spec fn registry(&self) -> Map<u32, PlacedJob> {
        self.reg@
    }

    /// The rounds of squeezing so far, the fallback placement among
    /// them.
    pub closed spec fn rounds(&self) -> u32 {
        self.total_iters
    }

    /// The identifier of the job that the trials leave out.
    pub closed spec fn left_out(&self) -> u32 {
        self.dumb_id
    }

    /// The latest death among the jobs.
    pub closed spec fn last_death(&self) -> ByteSteps {
        self.max_death
    }

    /// The greatest identifier among the jobs.
    pub closed spec fn greatest_id(&self) -> u32 {
        self.max_id
    }

    /// What no step of the search changes is as it was in `before`.
    pub open spec fn keeps(&self, before: Self) -> bool {
        &&& self.jobs() == before.jobs()
        &&& self.graph() == before.graph()
        &&& self.fallback() == before.fallback()
        &&& self.load() == before.load()
        &&& self.origin() == before.origin()
        &&& self.last_death() == before.last_death()
        &&& self.greatest_id() == before.greatest_id()
    }

    /// A trial on `boxed` unboxed `loose` and came to `found` by squeezing
    /// it, leaving the state `after` behind.
    pub open spec fn tried(
        &self,
        boxed: Instance,
        after: Self,
        found: ByteSteps,
        loose: Seq<(ByteSteps, u32)>,
    ) -> bool {
        placed_by(
            boxed.jobs@,
            self.graph(),
            self.registry(),
            after.registry(),
            next_stamp(self.rounds()),
            self.makespan(),
            self.left_out(),
            self.origin(),
            found,
            loose,
        )
    }

    /// What a trial on `boxed` that gives the makespan `found` leaves
    /// behind in the state `after`: as many jobs as the registry holds
    /// were unboxed and squeezed, and each stands where the walk over
    /// its neighbours that were taken before it found the first gap.
    pub open spec fn fruitful(&self, boxed: Instance, after: Self, found: ByteSteps) -> bool {
        exists|loose: Seq<(ByteSteps, u32)>| #[trigger]
            self.tried(boxed, after, found, loose) && loose.len() == self.registry().len()
    }

    /// Why a trial on `boxed` gives no makespan, `after` being the state
    /// that it leaves behind: no round is left to count, or there is
    /// nothing to unbox, or squeezing what was unboxed gave none, or
    /// what was unboxed is not as many jobs as the registry holds.
    pub open spec fn fruitless(&self, boxed: Instance, after: Self) -> bool {
        ||| self.rounds() == u32::MAX
        ||| boxed.jobs.len() == 0
        ||| exists|loose: Seq<(ByteSteps, u32)>, found: ByteSteps| #[trigger]
            self.tried(boxed, after, found, loose) && (found == usize::MAX || loose.len()
                != self.registry().len())
    }

    /// The state is sound: the registry and the graph are those of the
    /// jobs, the best placement is a valid one of all of them unless none
    /// was found within the machine word, it is no worse than the
    /// fallback one and no lower than the load.
    pub closed spec fn wf(&self) -> bool {
        &&& forall|i: int| 0 <= i < self.jobs@.len() ==> admissible(*#[trigger] self.jobs@[i])
        &&& prepared(self.jobs@, self.ig@, self.reg@)
        &&& prepared(self.jobs@, self.ig@, self.final_placement@)
        &&& self.reg@.dom().finite()
        &&& is_load(self.jobs@, self.real_load as nat)
        &&& self.best_opt <= self.heuristic_opt
        &&& forall|id: u32| #[trigger]
            self.reg@.contains_key(id) ==> self.reg@[id].times_squeezed <= self.total_iters
        &&& self.total_iters >= 1
        &&& self.base == 0 || self.base == self.start_address
        &&& self.best_opt < usize::MAX ==> {
            &&& valid_placement(self.jobs@, self.final_placement@, self.best_opt as int)
            &&& tops_at(self.jobs@, self.final_placement@, self.best_opt as int)
            &&& self.real_load <= self.best_opt
            &&& well_landed(self.ig@, self.final_placement@, self.base as int)
        }
    }

    /// The makespan of the best placement so far.
    pub fn best(&self) -> (res: ByteSteps)
        ensures
            res == self.makespan(),
    {
        self.best_opt
    }

    /// The load of the jobs.
    pub fn real_load(&self) -> (res: ByteSteps)
        ensures
            res == self.load(),
    {
        self.real_load
    }

    /// The trials that may still be made.
    pub fn lives_left(&self) -> (res: u32)
        ensures
            res == self.lives(),
    {
        self.lives_left
    }

    /// The latest death among the jobs.
    pub fn max_death(&self) -> (res: ByteSteps)
        ensures
            res == self.last_death(),
    {
        self.max_death
    }

    /// The greatest identifier among the jobs.
    pub fn max_id(&self) -> (res: u32)
        ensures
            res == self.greatest_id(),
    {
        self.max_id
    }

    /// The makespan of the fallback placement.
    pub fn fallback_makespan(&self) -> (res: ByteSteps)
        ensures
            res == self.fallback(),
    {
        self.heuristic_opt
    }

    /// A dummy job of the given size that lives from zero to the latest
    /// death, under the identifier kept for it, which lies above those
    /// of the jobs of the input and below those of the boxes. From now
    /// on unboxing gives a job of that identifier no place. There is none
    /// where the size is zero or a job of the input has that identifier
    /// or one above it.
    pub fn dummy(&mut self, size: ByteSteps) -> (res: Option<Arc<Job>>)
        requires
            old(self).wf(),
        ensures
            final(self).wf(),
            final(self).keeps(*old(self)),
            final(self).placement() == old(self).placement(),
            final(self).registry() == old(self).registry(),
            final(self).makespan() == old(self).makespan(),
            final(self).lives() == old(self).lives(),
            final(self).target() == old(self).target(),
            final(self).rounds() == old(self).rounds(),
            final(self).base() == old(self).base(),
            res is Some <==> size > 0 && old(self).greatest_id() < DUMMY_ID,
            res matches Some(d) ==> d.size == size && d.req_size == size && d.birth == 0 && d.death == old(
                self,
            ).last_death() && d.contents is None && d.alignment is None && d.originals_boxed == 0 && d.id
                == DUMMY_ID && final(self).left_out() == d.id,
            res is None ==> final(self).left_out() == old(self).left_out(),
    {
        if size == 0 || self.max_id >= DUMMY_ID {
            return None;
        }
        let id = DUMMY_ID;
        self.dumb_id = id;
        Some(
            Arc::new(
                Job {
                    size,
                    req_size: size,
                    birth: 0,
                    death: self.max_death,
                    originals_boxed: 0,
                    alignment: None,
                    contents: None,
                    id,
                },
            ),
        )
    }

    /// Sets the makespan to be reached.
    pub fn aim(&mut self, target_opt: ByteSteps)
        requires
            old(self).wf(),
        ensures
            final(self).wf(),
            final(self).target() == target_opt,
            final(self).keeps(*old(self)),
            final(self).placement() == old(self).placement(),
            final(self).registry() == old(self).registry(),
            final(self).makespan() == old(self).makespan(),
            final(self).lives() == old(self).lives(),
            final(self).rounds() == old(self).rounds(),
            final(self).base() == old(self).base(),
            final(self).left_out() == old(self).left_out(),
    {
        self.target_opt = target_opt;
    }

    /// Tells the identifier of the dummy job, which is to get no place.
    pub fn skip(&mut self, dumb_id: u32)
        requires
            old(self).wf(),
        ensures
            final(self).wf(),
            final(self).left_out() == dumb_id,
            final(self).keeps(*old(self)),
            final(self).placement() == old(self).placement(),
            final(self).registry() == old(self).registry(),
            final(self).makespan() == old(self).makespan(),
            final(self).lives() == old(self).lives(),
            final(self).target() == old(self).target(),
            final(self).rounds() == old(self).rounds(),
            final(self).base() == old(self).base(),
    {
        self.dumb_id = dumb_id;
    }

    /// Says whether another trial is asked for: one may still be made,
    /// and the target is not reached.
    pub fn wants_trial(&self) -> (res: bool)
        ensures
            res == (self.lives() > 0 && self.makespan() > self.target() && self.rounds() < u32::MAX),
    {
        self.lives_left > 0 && self.best_opt > self.target_opt && self.total_iters < u32::MAX
    }

    /// One trial: unboxes the boxed instance, squeezes what comes out,
    /// and keeps the outcome if it places every job and is better than
    /// the best so far. Returns the makespan of the outcome, or
    /// `usize::MAX` where it is none that could be kept.
    pub fn trial(&mut self, boxed: Instance) -> (current_opt: ByteSteps)
        requires
            old(self).wf(),
            old(self).lives() > 0,
        ensures
            final(self).wf(),
            final(self).keeps(*old(self)),
            final(self).target() == old(self).target(),
            final(self).left_out() == old(self).left_out(),
            final(self).lives() == old(self).lives() - 1,
            final(self).rounds() == if old(self).rounds() == u32::MAX || boxed.jobs.len() == 0 {
                old(self).rounds()
            } else {
                (old(self).rounds() + 1) as u32
            },
            final(self).makespan() == if current_opt < old(self).makespan() {
                current_opt
            } else {
                old(self).makespan()
            },
            final(self).makespan() <= old(self).makespan(),
            current_opt >= old(self).makespan() ==> final(self).placement() == old(self).placement(),
            current_opt == usize::MAX ==> old(self).fruitless(boxed, *final(self)),
            current_opt < usize::MAX ==> current_opt <= old(self).makespan() && old(self).fruitful(
                boxed,
                *final(self),
                current_opt,
            ),
            current_opt < old(self).makespan() ==> final(self).placement() == final(self).registry()
                && final(self).base() == old(self).origin(),
    {
        if self.total_iters == u32::MAX || boxed.jobs.len() == 0 {
            self.lives_left = self.lives_left - 1;
            return usize::MAX;
        }
        let ghost before = self.reg@;
        proof {
            assert(registry_ok(self.reg@)) by {
                assert forall|id: u32| #[trigger] self.reg@.contains_key(id) implies self.reg@[id].descr.alignment
                    != Some(0usize) by {
                    let i = choose|i: int| 0 <= i < self.jobs@.len() && (#[trigger] self.jobs@[i]).id == id;
                    assert(admissible(*self.jobs@[i]));
                }
            }
            assert forall|id: u32| !#[trigger] stamped(self.reg@, id, next_stamp(self.total_iters)) by {}
        }
        let (found, taken) = unbox_and_squeeze(
            boxed.jobs,
            &self.ig,
            &mut self.reg,
            self.total_iters,
            self.best_opt,
            self.dumb_id,
            self.start_address,
        );
        let ghost unboxed = choose|loose: Seq<(ByteSteps, u32)>| #[trigger]
            placed_by(
                boxed.jobs@,
                self.ig@,
                before,
                self.reg@,
                next_stamp(self.total_iters),
                self.best_opt,
                self.dumb_id,
                self.start_address,
                found,
                loose,
            ) && taken == loose.len();
        proof {
            broadcast use vstd::std_specs::hash::group_hash_axioms;

            assert(self.reg@.dom() =~= before.dom());
            assert(registry_of(self.jobs@, self.reg@)) by {
                assert forall|i: int| 0 <= i < self.jobs@.len() implies self.reg@.contains_key(
                    (#[trigger] self.jobs@[i]).id,
                ) && self.reg@[self.jobs@[i].id].descr == self.jobs@[i] by {
                    assert(before.contains_key(self.jobs@[i].id));
                }
                assert forall|id: u32| #[trigger] self.reg@.contains_key(id) implies exists|i: int|
                    0 <= i < self.jobs@.len() && (#[trigger] self.jobs@[i]).id == id by {
                    assert(before.contains_key(id));
                }
            }
            assert(old(self).tried(boxed, *self, found, unboxed));
        }
        let mut current_opt: usize = usize::MAX;
        if taken == self.reg.len() {
            current_opt = found;
        }
        if found < self.best_opt && taken == self.reg.len() {
            proof {
                broadcast use vstd::std_specs::hash::group_hash_axioms;

                lemma_all_squeezed(
                    self.ig@,
                    self.reg@,
                    loose_ids(unboxed),
                    next_stamp(self.total_iters),
                    self.start_address as int,
                    found as int,
                );
                lemma_placed_all_is_valid(
                    self.jobs@,
                    self.ig@,
                    self.reg@,
                    next_stamp(self.total_iters),
                    self.start_address as int,
                    found as int,
                    self.real_load as nat,
                );
            }
            self.best_opt = found;
            self.final_placement = snapshot(&self.reg);
            self.base = self.start_address;
        }
        proof {
            assert forall|id: u32| #[trigger] self.reg@.contains_key(id) implies self.reg@[id].times_squeezed
                <= self.total_iters + 1 by {
                assert(old(self).reg@.contains_key(id));
                assert(old(self).reg@[id].times_squeezed <= self.total_iters);
            }
        }
        self.total_iters = self.total_iters + 1;
        self.lives_left = self.lives_left - 1;
        proof {
            broadcast use vstd::std_specs::hash::group_hash_axioms;

            assert(self.registry().dom() =~= old(self).registry().dom());
            assert(old(self).tried(boxed, *self, found, unboxed));
            if current_opt < usize::MAX {
                assert(unboxed.len() == old(self).registry().len());
                assert(old(self).fruitful(boxed, *self, current_opt));
            } else {
                assert(found == usize::MAX || unboxed.len() != old(self).registry().len());
                assert(old(self).fruitless(boxed, *self));
            }
        }
        current_opt
    }

    /// The best placement that was found, and its makespan. Unless the
    /// makespan is `usize::MAX`, no two jobs that are live at a common
    /// moment share an address, the makespan is where the highest job
    /// ends and no less than the load,
    /// and every job stands where its alignment allows, at zero, or
    /// right above a neighbour. The makespan is no more than that of the
    /// fallback placement.
    pub fn finish(self) -> (res: (PlacedJobRegistry, ByteSteps))
        requires
            self.wf(),
        ensures
            res.0@ == self.placement(),
            res.1 == self.makespan(),
            registry_of(self.jobs(), res.0@),
            prepared(self.jobs(), self.graph(), res.0@),
            res.1 <= self.fallback(),
            res.1 < usize::MAX ==> valid_placement(self.jobs(), res.0@, res.1 as int),
            res.1 < usize::MAX ==> tops_at(self.jobs(), res.0@, res.1 as int),
            res.1 < usize::MAX ==> self.load() <= res.1,
            res.1 < usize::MAX ==> well_landed(self.graph(), res.0@, self.base() as int),
            is_load(self.jobs(), self.load() as nat),
    {
        (self.final_placement, self.best_opt)
    }
}

/// `Arc::clone` on the job of each entry, and a new registry of the
/// entries: the same jobs under the same identifiers with the same
/// offsets.
fn snapshot(reg: &PlacedJobRegistry) -> (res: PlacedJobRegistry)
    ensures
        res@ == reg@,
{
    reg.clone()
}

/// Every job stands at the first offset from zero upward that its
/// alignment allows.
pub open spec fn all_at_bottom(jobs: Seq<Arc<Job>>, reg: Map<u32, PlacedJob>, start: int) -> bool {
    forall|i: int|
        0 <= i < jobs.len() ==> (#[trigger] reg[jobs[i].id]).offset == corrected(
            start,
            0,
            jobs[i].alignment,
        )
}

/// `max` is the greatest size among the jobs.
pub open spec fn is_max_size(jobs: Seq<Arc<Job>>, max: ByteSteps) -> bool {
    &&& forall|i: int| 0 <= i < jobs.len() ==> (#[trigger] jobs[i]).size <= max
    &&& exists|i: int| 0 <= i < jobs.len() && (#[trigger] jobs[i]).size == max
}

/// Gives every job an offset, so that no two jobs that are live at a
/// common moment share an address. Jobs of which no two are live
/// together all go to the bottom; the makespan is their greatest size.
/// Jobs of one size are coloured, go row above row and are squeezed,
/// best fit. Other jobs are placed by the fallback rule, and come back
/// with the state of a search for a better placement, which boxing
/// feeds.
pub fn idealloc(original_input: JobSet, start_address: ByteSteps, max_lives: u32) -> (res: Outcome)
    requires
        original_input.len() > 0,
        forall|i: int| 0 <= i < original_input.len() ==> admissible(*#[trigger] original_input[i]),
        distinct_ids(original_input@),
        load_fits(original_input@),
    ensures
        match res {
            Outcome::Placed(placement, makespan) => {
                &&& registry_of(original_input@, placement@)
                &&& no_clash(original_input@, placement@)
                &&& !some_overlap(original_input@) ==> is_max_size(original_input@, makespan)
                    && all_at_bottom(original_input@, placement@, start_address as int)
                &&& some_overlap(original_input@) ==> uniform(original_input@)
                &&& forall|load: nat| is_load(original_input@, load) ==> load <= makespan
                &&& some_overlap(original_input@) ==> valid_placement(
                    original_input@,
                    placement@,
                    makespan as int,
                ) && tops_at(original_input@, placement@, makespan as int)
                &&& some_overlap(original_input@) ==> exists|ig: Map<u32, Vec<u32>>| #[trigger]
                    prepared(original_input@, ig, placement@) && well_landed(
                        ig,
                        placement@,
                        start_address as int,
                    )
                &&& some_overlap(original_input@) ==> forall|peak: nat|
                    is_peak(original_input@, peak, true) ==> makespan == peak * original_input[0].size
                &&& some_overlap(original_input@) ==> in_rows(
                    original_input@,
                    placement@,
                    original_input[0].size,
                )
            },
            Outcome::Refine(search, input) => {
                &&& some_overlap(original_input@)
                &&& !uniform(original_input@)
                &&& search.wf()
                &&& search.jobs() == original_input@
                &&& prepared(original_input@, search.graph(), search.placement())
                &&& prepared(original_input@, search.graph(), search.registry())
                &&& search.makespan() == search.fallback()
                &&& search.lives() == max_lives
                &&& exists|loose: Seq<(ByteSteps, u32)>| #[trigger]
                    fallback_order(original_input@, loose) && fell_back(
                        loose,
                        search.graph(),
                        search.placement(),
                        search.fallback(),
                    )
                &&& search.base() == 0
                &&& search.origin() == start_address
                &&& search.rounds() == 1
                &&& search.last_death() == crate::model::max_death(original_input@)
                &&& forall|i: int|
                    0 <= i < original_input.len() ==> (#[trigger] original_input[i]).id <= search.greatest_id()
                &&& exists|i: int|
                    0 <= i < original_input.len() && (#[trigger] original_input[i]).id == search.greatest_id()
                &&& input.jobs@ == original_input@
                &&& input.wf()
                &&& input.info.min_max_height is Some
            },
        },
{
    let ghost jobs = original_input@;
    match prelude_analysis(original_input) {
        AnalysisResult::NoOverlap(js) => {
            let makespan = get_max_size(&js);
            let mut placement: PlacedJobRegistry = HashMap::new();
            let mut i: usize = 0;
            while i < js.len()
                invariant
                    i <= js.len(),
                    js@ == jobs,
                    distinct_ids(jobs),
                    forall|k: int| 0 <= k < js.len() ==> admissible(*#[trigger] js[k]),
                    forall|k: int|
                        0 <= k < i ==> placement@.contains_key((#[trigger] js[k]).id)
                            && placement@[js[k].id].descr == js[k] && placement@[js[k].id].offset
                            == corrected(start_address as int, 0, js[k].alignment),
                    forall|id: u32| #[trigger]
                        placement@.contains_key(id) ==> exists|k: int|
                            0 <= k < i && (#[trigger] js[k]).id == id,
                decreases js.len() - i,
            {
                let mut placed = PlacedJob::new(share(&js[i]));
                proof {
                    assert(admissible(*js[i as int]));
                    lemma_corrected(start_address as int, 0, js[i as int].alignment);
                    if let Some(a) = js[i as int].alignment {
                        vstd::arithmetic::div_mod::lemma_mod_bound(start_address as int, a as int);
                    }
                }
                // Don't forget alignment!
                placed.offset = placed.get_corrected_offset(start_address, 0);
                let ghost before = placement@;
                record(&mut placement, js[i].id, placed);
                proof {
                    assert forall|k: int| 0 <= k < i + 1 implies placement@.contains_key(
                        (#[trigger] js[k]).id,
                    ) && placement@[js[k].id].descr == js[k] && placement@[js[k].id].offset
                        == corrected(start_address as int, 0, js[k].alignment) by {
                        if k < i {
                            assert(js[k].id != js[i as int].id);
                            assert(before.contains_key(js[k].id));
                        }
                    }
                    assert forall|id: u32| #[trigger] placement@.contains_key(id) implies exists|k: int|
                        0 <= k < i + 1 && (#[trigger] js[k]).id == id by {
                        if id != js[i as int].id {
                            assert(before.contains_key(id));
                            let k = choose|k: int| 0 <= k < i && (#[trigger] js[k]).id == id;
                            assert(js[k].id == id);
                        } else {
                            assert(js[i as int].id == id);
                        }
                    }
                }
                i += 1;
            }
            proof {
                assert forall|load: nat| is_load(jobs, load) implies load <= makespan by {
                    let t = choose|t: int| #[trigger] live_sum(jobs, t, false) == load;
                    load_of_lone_jobs(jobs, t, makespan as nat);
                }
            }
            Outcome::Placed(placement, makespan)
        },
        AnalysisResult::SameSizes(js, ig, reg) => {
            // Jobs of one size that are live together: colouring places
            // them as low as their load.
            let mut reg = reg;
            let row_size = js[0].size;
            let rows = interval_graph_coloring(js);
            let mut loose: LoosePlacement = Vec::new();
            let ghost mut row_of: Seq<int> = Seq::empty();
            let ghost mut pos_of: Seq<int> = Seq::empty();
            proof {
                lemma_row_members(jobs, rows_view(rows@));
                // The rows are as many as the load has sizes, so no row
                // lies beyond the machine word.
                let t = choose|t: int| #[trigger] live_sum(jobs, t, true) == rows.len();
                crate::laws::lemma_uniform_load(jobs, row_size as int, t);
                assert(live_sum(jobs, t, false) <= usize::MAX);
                assert(rows.len() * row_size == row_size * rows.len()) by (nonlinear_arith);
            }
            let mut r: usize = 0;
            while r < rows.len()
                invariant
                    r <= rows.len(),
                    rows.len() * row_size <= usize::MAX,
                    row_of.len() == loose.len(),
                    pos_of.len() == loose.len(),
                    forall|q: int|
                        0 <= q < loose.len() ==> 0 <= #[trigger] row_of[q] < r && 0 <= pos_of[q]
                            < rows[row_of[q]].len() && loose[q].0 == row_of[q] * row_size && loose[q].1
                            == rows[row_of[q]][pos_of[q]].id,
                    forall|x: int, b: int|
                        0 <= x < r && 0 <= b < rows[x].len() ==> #[trigger] entry_of(row_of, pos_of, x, b),
                    forall|p: int, q: int|
                        #![trigger row_of[p], row_of[q]]
                        0 <= p < q < loose.len() ==> row_of[p] != row_of[q] || pos_of[p] != pos_of[q],
                    prepared(jobs, ig@, reg@),
                    forall|r: int, a: int|
                        #![trigger rows_view(rows@)[r][a]]
                        0 <= r < rows.len() && 0 <= a < rows_view(rows@)[r].len() ==> jobs.contains(
                            rows_view(rows@)[r][a],
                        ),
                    forall|q: int| 0 <= q < loose.len() ==> reg@.contains_key((#[trigger] loose[q]).1),
                    forall|x: int, a: int|
                        #![trigger rows[x][a]]
                        0 <= x < r && 0 <= a < rows[x].len() ==> loose_ids(loose@).contains(
                            rows[x][a].id,
                        ),
                decreases rows.len() - r,
            {
                proof {
                    assert(r * row_size <= rows.len() * row_size) by (nonlinear_arith)
                        requires
                            r <= rows.len(),
                    ;
                }
                let symbolic = match r.checked_mul(row_size) {
                    Some(s) => s,
                    None => usize::MAX,
                };
                let mut a: usize = 0;
                while a < rows[r].len()
                    invariant
                        r < rows.len(),
                        a <= rows[r as int].len(),
                        symbolic == r * row_size,
                        row_of.len() == loose.len(),
                        pos_of.len() == loose.len(),
                        forall|q: int|
                            0 <= q < loose.len() ==> 0 <= #[trigger] row_of[q] <= r && 0 <= pos_of[q]
                                < rows[row_of[q]].len() && loose[q].0 == row_of[q] * row_size
                                && loose[q].1 == rows[row_of[q]][pos_of[q]].id,
                        forall|x: int, b: int|
                            (0 <= x < r && 0 <= b < rows[x].len()) || (x == r && 0 <= b < a)
                                ==> #[trigger] entry_of(row_of, pos_of, x, b),
                        forall|q: int| 0 <= q < loose.len() && #[trigger] row_of[q] == r ==> pos_of[q] < a,
                        forall|p: int, q: int|
                            #![trigger row_of[p], row_of[q]]
                            0 <= p < q < loose.len() ==> row_of[p] != row_of[q] || pos_of[p] != pos_of[q],
                        prepared(jobs, ig@, reg@),
                        forall|r: int, a: int|
                            #![trigger rows_view(rows@)[r][a]]
                            0 <= r < rows.len() && 0 <= a < rows_view(rows@)[r].len()
                                ==> jobs.contains(rows_view(rows@)[r][a]),
                        forall|q: int|
                            0 <= q < loose.len() ==> reg@.contains_key((#[trigger] loose[q]).1),
                        forall|x: int, b: int|
                            #![trigger rows[x][b]]
                            0 <= x < r && 0 <= b < rows[x].len() ==> loose_ids(loose@).contains(
                                rows[x][b].id,
                            ),
                        forall|b: int|
                            0 <= b < a ==> loose_ids(loose@).contains((#[trigger] rows[r as int][b]).id),
                    decreases rows[r as int].len() - a,
                {
                    let ghost before = loose@;
                    proof {
                        assert(jobs.contains(rows_view(rows@)[r as int][a as int]));
                        let w = choose|w: int| 0 <= w < jobs.len() && jobs[w] == rows[r as int][a as int];
                        assert(reg@.contains_key(jobs[w].id));
                    }
                    loose.push((symbolic, rows[r][a].id));
                    proof {
                        let ghost old_row_of = row_of;
                        let ghost old_pos_of = pos_of;
                        row_of = row_of.push(r as int);
                        pos_of = pos_of.push(a as int);
                        assert forall|x: int, b: int|
                            (0 <= x < r && 0 <= b < rows[x].len()) || (x == r && 0 <= b < a + 1) implies #[trigger] entry_of(
                            row_of,
                            pos_of,
                            x,
                            b,
                        ) by {
                            if x == r && b == a {
                                assert(row_of[old_row_of.len() as int] == x && pos_of[old_row_of.len() as int]
                                    == b);
                            } else {
                                assert(entry_of(old_row_of, old_pos_of, x, b));
                                let q = choose|q: int|
                                    0 <= q < old_row_of.len() && #[trigger] old_row_of[q] == x
                                        && old_pos_of[q] == b;
                                assert(row_of[q] == x && pos_of[q] == b);
                            }
                        }
                        assert(loose_ids(loose@)[before.len() as int] == rows[r as int][a as int].id);
                        assert forall|id: u32| loose_ids(before).contains(id) implies loose_ids(
                            loose@,
                        ).contains(id) by {
                            let w = choose|w: int|
                                0 <= w < loose_ids(before).len() && loose_ids(before)[w] == id;
                            assert(loose_ids(loose@)[w] == id);
                        }
                    }
                    a += 1;
                }
                r += 1;
            }
            let ghost ids = loose_ids(loose@);
            proof {
                assert(registry_ok(reg@)) by {
                    assert forall|id: u32| #[trigger] reg@.contains_key(id) implies reg@[id].descr.alignment
                        != Some(0usize) by {
                        let i = choose|i: int| 0 <= i < jobs.len() && (#[trigger] jobs[i]).id == id;
                        assert(admissible(*jobs[i]));
                    }
                }
                assert forall|id: u32| !#[trigger] stamped(reg@, id, next_stamp(0)) by {
                    assert(!stamped(reg@, id, 1));
                }
            }
            let ghost before = reg@;
            proof {
                lemma_rows_stack(jobs, rows_view(rows@), loose@, row_of, pos_of, ig@, reg@, row_size);
                lemma_rows_ends(jobs, rows_view(rows@), loose@, row_of, pos_of, ig@, reg@, row_size);
            }
            let makespan = do_best_fit(loose, &ig, &mut reg, 0, usize::MAX, false, start_address);
            proof {
                assert(reg@.dom() =~= before.dom());
                assert(registry_of(jobs, reg@)) by {
                    assert forall|i: int| 0 <= i < jobs.len() implies reg@.contains_key(
                        (#[trigger] jobs[i]).id,
                    ) && reg@[jobs[i].id].descr == jobs[i] by {
                        assert(before.contains_key(jobs[i].id));
                    }
                    assert forall|id: u32| #[trigger] reg@.contains_key(id) implies exists|i: int|
                        0 <= i < jobs.len() && (#[trigger] jobs[i]).id == id by {
                        assert(before.contains_key(id));
                    }
                }
                lemma_rows_kept(
                    jobs,
                    rows_view(rows@),
                    loose@,
                    row_of,
                    pos_of,
                    before,
                    reg@,
                    row_size,
                    makespan,
                );
                assert(prepared(jobs, ig@, reg@));
                lemma_rows_valid(jobs, rows_view(rows@), ig@, reg@, row_size, start_address as int);
                assert forall|load: nat| is_load(jobs, load) implies load <= makespan by {
                    assert forall|i: int| 0 <= i < jobs.len() implies (#[trigger] jobs[i]).size > 0 by {
                        assert(admissible(*jobs[i]));
                    }
                    load_is_lower_bound(jobs, reg@, makespan as int, load);
                }
            }
            Outcome::Placed(reg, makespan)
        },
        AnalysisResult::NeedsBA(ctrl) => {
            let final_placement = snapshot(&ctrl.reg);
            proof {
                broadcast use vstd::std_specs::hash::group_hash_axioms;

                if ctrl.best_opt < usize::MAX {
                    lemma_placed_all_is_valid(
                        jobs,
                        ctrl.ig@,
                        ctrl.reg@,
                        1,
                        0,
                        ctrl.best_opt as int,
                        ctrl.real_load as nat,
                    );
                }
            }
            let search = Refinement {
                jobs: Ghost(jobs),
                ig: ctrl.ig,
                reg: ctrl.reg,
                final_placement,
                best_opt: ctrl.best_opt,
                heuristic_opt: ctrl.best_opt,
                real_load: ctrl.real_load,
                target_opt: ctrl.real_load,
                lives_left: max_lives,
                total_iters: 1,
                dumb_id: DUMMY_ID,
                start_address,
                base: 0,
                max_death: ctrl.max_death,
                max_id: ctrl.max_id,
            };
            Outcome::Refine(search, ctrl.input)
        },
    }
}

/// The jobs, all of one size, stand in the rows of their colouring: the
/// jobs of the first row at zero, and each row right above the one
/// before.
pub open spec fn in_rows(jobs: Seq<Arc<Job>>, reg: Map<u32, PlacedJob>, size: ByteSteps) -> bool {
    exists|rows: Seq<Seq<Arc<Job>>>| #[trigger]
        is_coloring(jobs, rows) && forall|x: int, b: int|
            #![trigger rows[x][b]]
            0 <= x < rows.len() && 0 <= b < rows[x].len() ==> reg[rows[x][b].id].offset == x * size
}

/// Where jobs of one size were squeezed and stand as their rows were
/// loosely placed, they stand in the rows of their colouring, and the
/// makespan is the size times the most jobs live in any one slot.
pub proof fn lemma_rows_kept(
    jobs: Seq<Arc<Job>>,
    rows: Seq<Seq<Arc<Job>>>,
    loose: Seq<(ByteSteps, u32)>,
    row_of: Seq<int>,
    pos_of: Seq<int>,
    before: Map<u32, PlacedJob>,
    reg: Map<u32, PlacedJob>,
    row_size: ByteSteps,
    makespan: ByteSteps,
)
    requires
        is_coloring(jobs, rows),
        jobs.len() > 0,
        row_size == jobs[0].size,
        row_of.len() == loose.len(),
        pos_of.len() == loose.len(),
        forall|q: int|
            0 <= q < loose.len() ==> 0 <= #[trigger] row_of[q] < rows.len() && 0 <= pos_of[q]
                < rows[row_of[q]].len() && loose[q].0 == row_of[q] * row_size && loose[q].1
                == rows[row_of[q]][pos_of[q]].id,
        forall|x: int, b: int|
            0 <= x < rows.len() && 0 <= b < rows[x].len() ==> #[trigger] entry_of(row_of, pos_of, x, b),
        forall|q: int| 0 <= q < loose.len() ==> #[trigger] loose_end(loose, before, q) == (row_of[q] + 1) * row_size,
        kept_stack(loose, before, reg, makespan as int),
    ensures
        makespan == rows.len() * row_size,
        in_rows(jobs, reg, row_size),
        forall|x: int, b: int|
            #![trigger rows[x][b]]
            0 <= x < rows.len() && 0 <= b < rows[x].len() ==> reg[rows[x][b].id].offset == x * row_size,
        forall|peak: nat| is_peak(jobs, peak, true) ==> makespan == peak * jobs[0].size,
{
    let top = rows.len() * row_size;
    lemma_rows_cover(jobs, rows, 0);
    assert(rows.len() > 0);
    assert(rows[rows.len() - 1].len() > 0);
    assert(entry_of(row_of, pos_of, rows.len() - 1, 0));
    let high = choose|q: int| 0 <= q < row_of.len() && #[trigger] row_of[q] == rows.len() - 1 && pos_of[q] == 0;
    assert(loose_end(loose, before, high) == top);
    assert(loose_end(loose, before, high) <= makespan);
    let k = choose|k: int| 0 <= k < loose.len() && #[trigger] loose_end(loose, before, k) == makespan;
    assert((row_of[k] + 1) * row_size <= rows.len() * row_size) by (nonlinear_arith)
        requires
            0 <= row_of[k] < rows.len(),
            0 <= row_size,
    ;
    assert(makespan == top);
    assert forall|peak: nat| is_peak(jobs, peak, true) implies makespan == peak * jobs[0].size by {
        crate::laws::peak_is_unique(jobs, peak, rows.len() as nat, true);
    }
    assert forall|x: int, b: int|
        #![trigger rows[x][b]]
        0 <= x < rows.len() && 0 <= b < rows[x].len() implies reg[rows[x][b].id].offset == x * row_size by {
        assert(entry_of(row_of, pos_of, x, b));
        let q = choose|q: int| 0 <= q < row_of.len() && #[trigger] row_of[q] == x && pos_of[q] == b;
        assert(reg[loose[q].1].offset == loose[q].0);
    }
}

/// Jobs of one size that stand in the rows of their colouring stand
/// validly below the end of the last row, and each at zero or right
/// above a neighbour.
pub proof fn lemma_rows_valid(
    jobs: Seq<Arc<Job>>,
    rows: Seq<Seq<Arc<Job>>>,
    ig: Map<u32, Vec<u32>>,
    reg: Map<u32, PlacedJob>,
    size: ByteSteps,
    start: int,
)
    requires
        is_coloring(jobs, rows),
        prepared(jobs, ig, reg),
        distinct_ids(jobs),
        uniform(jobs),
        jobs.len() > 0,
        size == jobs[0].size,
        forall|i: int| 0 <= i < jobs.len() ==> admissible(*#[trigger] jobs[i]),
        forall|x: int, b: int|
            #![trigger rows[x][b]]
            0 <= x < rows.len() && 0 <= b < rows[x].len() ==> reg[rows[x][b].id].offset == x * size,
    ensures
        valid_placement(jobs, reg, rows.len() * size),
        tops_at(jobs, reg, rows.len() * size),
        well_landed(ig, reg, start),
{
    lemma_row_members(jobs, rows);
    lemma_rows_cover(jobs, rows, 0);
    assert(tops_at(jobs, reg, rows.len() * size)) by {
        let x = rows.len() - 1;
        assert(rows[x].len() > 0);
        assert(jobs.contains(rows[x][0]));
        let i = choose|i: int| 0 <= i < jobs.len() && jobs[i] == rows[x][0];
        assert(reg[rows[x][0].id].offset == x * size);
        assert(reg[jobs[i].id].descr == jobs[i]);
        assert(jobs[i].size == size);
        assert(x * size + size == rows.len() * size) by (nonlinear_arith)
            requires
                x == rows.len() - 1,
        ;
    }
    assert(jobs.no_duplicates()) by {
        assert forall|u: int, v: int| 0 <= u < jobs.len() && 0 <= v < jobs.len() && u != v implies jobs[u]
            != jobs[v] by {
            assert(jobs[u].id != jobs[v].id);
        }
    }
    jobs.lemma_multiset_has_no_duplicates();
    assert forall|i: int| 0 <= i < jobs.len() implies end_of(#[trigger] reg[jobs[i].id]) <= rows.len()
        * size by {
        lemma_rows_cover(jobs, rows, i);
        let (x, b) = choose|x: int, b: int|
            #![trigger rows[x][b]]
            0 <= x < rows.len() && 0 <= b < rows[x].len() && rows[x][b] == jobs[i];
        assert(reg[rows[x][b].id].offset == x * size);
        assert(x * size + size <= rows.len() * size) by (nonlinear_arith)
            requires
                0 <= x < rows.len(),
                0 <= size,
        ;
    }
    assert forall|i: int, j: int|
        #![trigger jobs[i], jobs[j]]
        0 <= i < jobs.len() && 0 <= j < jobs.len() && i != j && overlap(*jobs[i], *jobs[j]) implies apart(
        reg[jobs[i].id],
        reg[jobs[j].id],
    ) by {
        lemma_rows_cover(jobs, rows, i);
        lemma_rows_cover(jobs, rows, j);
        let (x, b) = choose|x: int, b: int|
            #![trigger rows[x][b]]
            0 <= x < rows.len() && 0 <= b < rows[x].len() && rows[x][b] == jobs[i];
        let (y, c) = choose|y: int, c: int|
            #![trigger rows[y][c]]
            0 <= y < rows.len() && 0 <= c < rows[y].len() && rows[y][c] == jobs[j];
        assert(reg[rows[x][b].id].offset == x * size);
        assert(reg[rows[y][c].id].offset == y * size);
        assert(admissible(*jobs[i]) && admissible(*jobs[j]));
        if x == y {
            if b < c {
                assert(rows[x][b].death <= rows[x][c].birth);
            } else if c < b {
                assert(rows[x][c].death <= rows[x][b].birth);
            }
        } else if x < y {
            assert(x * size + size <= y * size) by (nonlinear_arith)
                requires
                    0 <= x < y,
                    0 <= size,
            ;
        } else {
            assert(y * size + size <= x * size) by (nonlinear_arith)
                requires
                    0 <= y < x,
                    0 <= size,
            ;
        }
    }
    assert forall|id: u32| #[trigger] reg.contains_key(id) implies stands(
        start,
        reg[id].offset as int,
        reg[id].descr.alignment,
    ) || reg[id].offset == 0 || exists|k: int|
        0 <= k < ig[id].len() && reg.contains_key(#[trigger] ig[id][k]) && reg[id].offset == end_of(
            reg[ig[id][k]],
        ) by {
        let i = choose|i: int| 0 <= i < jobs.len() && (#[trigger] jobs[i]).id == id;
        lemma_rows_cover(jobs, rows, i);
        let (x, b) = choose|x: int, b: int|
            #![trigger rows[x][b]]
            0 <= x < rows.len() && 0 <= b < rows[x].len() && rows[x][b] == jobs[i];
        assert(reg[rows[x][b].id].offset == x * size);
        if x == 0 {
            assert(0 * size == 0) by (nonlinear_arith);
        } else {
            assert(taken_at(rows[x - 1], rows[x][b].birth as int));
            let c = choose|c: int|
                0 <= c < rows[x - 1].len() && occupies(*#[trigger] rows[x - 1][c], jobs[i].birth as int);
            assert(jobs.contains(rows[x - 1][c]));
            let j = choose|j: int| 0 <= j < jobs.len() && jobs[j] == rows[x - 1][c];
            assert(i != j) by {
                if i == j {
                    lemma_twice_in_rows(rows, x, b, x - 1, c);
                    assert(jobs.to_multiset().contains(jobs[i]));
                }
            }
            assert(admissible(*jobs[i]) && admissible(*jobs[j]));
            assert(overlap(*jobs[i], *jobs[j]));
            assert(linked(ig, jobs[i].id, jobs[j].id));
            let k = choose|k: int| 0 <= k < ig[id]@.len() && ig[id]@[k] == jobs[j].id;
            assert(ig[id][k] == jobs[j].id);
            assert(reg[rows[x - 1][c].id].offset == (x - 1) * size);
            assert(reg[jobs[j].id].descr == jobs[j]);
            assert(jobs[j].size == size);
            assert((x - 1) * size + size == x * size) by (nonlinear_arith);
        }
    }
}

/// The job at place `b` of row `x` has a loose entry.
pub open spec fn entry_of(row_of: Seq<int>, pos_of: Seq<int>, x: int, b: int) -> bool {
    exists|q: int| 0 <= q < row_of.len() && #[trigger] row_of[q] == x && pos_of[q] == b
}

/// Jobs of one size, loosely placed row above row as they were
/// coloured: no job has two entries, and every entry ends where the row
/// above it begins.
pub proof fn lemma_rows_ends(
    jobs: Seq<Arc<Job>>,
    rows: Seq<Seq<Arc<Job>>>,
    loose: Seq<(ByteSteps, u32)>,
    row_of: Seq<int>,
    pos_of: Seq<int>,
    ig: Map<u32, Vec<u32>>,
    reg: Map<u32, PlacedJob>,
    row_size: ByteSteps,
)
    requires
        is_coloring(jobs, rows),
        prepared(jobs, ig, reg),
        distinct_ids(jobs),
        uniform(jobs),
        jobs.len() > 0,
        row_size == jobs[0].size,
        forall|i: int| 0 <= i < jobs.len() ==> admissible(*#[trigger] jobs[i]),
        row_of.len() == loose.len(),
        pos_of.len() == loose.len(),
        forall|q: int|
            0 <= q < loose.len() ==> 0 <= #[trigger] row_of[q] < rows.len() && 0 <= pos_of[q]
                < rows[row_of[q]].len() && loose[q].0 == row_of[q] * row_size && loose[q].1
                == rows[row_of[q]][pos_of[q]].id,
        forall|x: int, b: int|
            0 <= x < rows.len() && 0 <= b < rows[x].len() ==> #[trigger] entry_of(row_of, pos_of, x, b),
        forall|p: int, q: int|
            #![trigger row_of[p], row_of[q]]
            0 <= p < q < loose.len() ==> row_of[p] != row_of[q] || pos_of[p] != pos_of[q],
    ensures
        loose_ids(loose).no_duplicates(),
        ends_within(loose, reg, rows.len() * row_size),
        forall|q: int| 0 <= q < loose.len() ==> #[trigger] loose_end(loose, reg, q) == (row_of[q] + 1) * row_size,
{
    lemma_row_members(jobs, rows);
    assert(admissible(*jobs[0]));
    assert(jobs.no_duplicates()) by {
        assert forall|u: int, v: int| 0 <= u < jobs.len() && 0 <= v < jobs.len() && u != v implies jobs[u]
            != jobs[v] by {
            assert(jobs[u].id != jobs[v].id);
        }
    }
    jobs.lemma_multiset_has_no_duplicates();
    assert forall|q: int| 0 <= q < loose.len() implies #[trigger] loose_end(loose, reg, q) == (row_of[q] + 1)
        * row_size && loose_end(loose, reg, q) <= rows.len() * row_size by {
        let x = row_of[q];
        assert(jobs.contains(rows[x][pos_of[q]]));
        let w = choose|w: int| 0 <= w < jobs.len() && jobs[w] == rows[x][pos_of[q]];
        assert(reg[jobs[w].id].descr == jobs[w]);
        assert(jobs[w].size == row_size);
        assert(x * row_size + row_size == (x + 1) * row_size) by (nonlinear_arith);
        assert((x + 1) * row_size <= rows.len() * row_size) by (nonlinear_arith)
            requires
                0 <= x < rows.len(),
                0 <= row_size,
        ;
    }
    assert(loose_ids(loose).no_duplicates()) by {
        assert forall|p: int, q: int| 0 <= p < loose.len() && 0 <= q < loose.len() && p != q implies loose_ids(
            loose,
        )[p] != loose_ids(loose)[q] by {
            let jp = rows[row_of[p]][pos_of[p]];
            let jq = rows[row_of[q]][pos_of[q]];
            if p < q {
                assert(row_of[p] != row_of[q] || pos_of[p] != pos_of[q]);
            } else {
                assert(row_of[q] != row_of[p] || pos_of[q] != pos_of[p]);
            }
            assert(jobs.contains(rows[row_of[p]][pos_of[p]]));
            assert(jobs.contains(rows[row_of[q]][pos_of[q]]));
            let u = choose|u: int| 0 <= u < jobs.len() && jobs[u] == jp;
            let v = choose|v: int| 0 <= v < jobs.len() && jobs[v] == jq;
            if jp == jq {
                lemma_twice_in_rows(rows, row_of[p], pos_of[p], row_of[q], pos_of[q]);
                assert(jobs.to_multiset().contains(jp));
            }
            assert(jobs[u].id != jobs[v].id);
        }
    }
}

/// Jobs of one size, loosely placed row above row as they were
/// coloured, are a stack: each stands right on a neighbour in the row
/// below.
pub proof fn lemma_rows_stack(
    jobs: Seq<Arc<Job>>,
    rows: Seq<Seq<Arc<Job>>>,
    loose: Seq<(ByteSteps, u32)>,
    row_of: Seq<int>,
    pos_of: Seq<int>,
    ig: Map<u32, Vec<u32>>,
    reg: Map<u32, PlacedJob>,
    row_size: ByteSteps,
)
    requires
        is_coloring(jobs, rows),
        prepared(jobs, ig, reg),
        distinct_ids(jobs),
        uniform(jobs),
        jobs.len() > 0,
        row_size == jobs[0].size,
        forall|i: int| 0 <= i < jobs.len() ==> admissible(*#[trigger] jobs[i]),
        row_of.len() == loose.len(),
        pos_of.len() == loose.len(),
        forall|q: int|
            0 <= q < loose.len() ==> 0 <= #[trigger] row_of[q] < rows.len() && 0 <= pos_of[q]
                < rows[row_of[q]].len() && loose[q].0 == row_of[q] * row_size && loose[q].1
                == rows[row_of[q]][pos_of[q]].id,
        forall|x: int, b: int|
            0 <= x < rows.len() && 0 <= b < rows[x].len() ==> #[trigger] entry_of(row_of, pos_of, x, b),
        forall|p: int, q: int|
            #![trigger row_of[p], row_of[q]]
            0 <= p < q < loose.len() ==> row_of[p] != row_of[q] || pos_of[p] != pos_of[q],
    ensures
        stacks(loose, ig, reg),
{
    lemma_row_members(jobs, rows);
    assert(admissible(*jobs[0]));
    assert(jobs.no_duplicates()) by {
        assert forall|u: int, v: int| 0 <= u < jobs.len() && 0 <= v < jobs.len() && u != v implies jobs[u]
            != jobs[v] by {
            assert(jobs[u].id != jobs[v].id);
        }
    }
    jobs.lemma_multiset_has_no_duplicates();
    assert forall|a: int| 0 <= a < loose.len() implies {
        &&& reg[(#[trigger] loose[a]).1].descr.size > 0
        &&& loose[a].0 == 0 || reached(loose, ig, reg, a, loose[a].0 as int)
        &&& forall|b: int|
            #[trigger] below(loose, ig, a, b) ==> loose_end(loose, reg, b) <= loose[a].0 && (loose[b].0
                == 0 || reached(loose, ig, reg, a, loose[b].0 as int))
    } by {
        let ra = row_of[a];
        let ja = rows[ra][pos_of[a]];
        assert(jobs.contains(rows[ra][pos_of[a]]));
        let i = choose|i: int| 0 <= i < jobs.len() && jobs[i] == ja;
        assert(reg[jobs[i].id].descr == jobs[i]);
        assert(jobs[i].size == row_size);
        assert(admissible(*jobs[i]));
        // In every lower row the job has a neighbour, taken before it,
        // that ends where the next row begins.
        assert forall|lower: int| #![trigger rows[lower]] 0 <= lower < ra implies reached(
            loose,
            ig,
            reg,
            a,
            (lower + 1) * row_size,
        ) by {
            assert(taken_at(rows[lower], rows[ra][pos_of[a]].birth as int));
            let b = choose|b: int|
                0 <= b < rows[lower].len() && occupies(*#[trigger] rows[lower][b], ja.birth as int);
            let jc = rows[lower][b];
            assert(jobs.contains(rows[lower][b]));
            let j = choose|j: int| 0 <= j < jobs.len() && jobs[j] == jc;
            assert(i != j) by {
                if i == j {
                    lemma_twice_in_rows(rows, ra, pos_of[a], lower, b);
                    assert(jobs.to_multiset().contains(ja));
                }
            }
            assert(admissible(*jobs[j]));
            assert(overlap(*jobs[i], *jobs[j]));
            assert(linked(ig, jobs[i].id, jobs[j].id));
            assert(entry_of(row_of, pos_of, lower, b));
            let c = choose|c: int| 0 <= c < row_of.len() && #[trigger] row_of[c] == lower && pos_of[c] == b;
            assert(loose[c].1 == jobs[j].id);
            assert(lower * row_size < ra * row_size) by (nonlinear_arith)
                requires
                    0 <= lower < ra,
                    row_size > 0,
            ;
            assert(below(loose, ig, a, c));
            assert(reg[jobs[j].id].descr == jobs[j]);
            assert(jobs[j].size == row_size);
            assert(lower * row_size + row_size == (lower + 1) * row_size) by (nonlinear_arith);
        }
        if loose[a].0 != 0 {
            assert(ra > 0) by {
                if ra == 0 {
                    assert(0 * row_size == 0) by (nonlinear_arith);
                }
            }
            assert(rows[ra - 1].len() >= 0);
            assert(reached(loose, ig, reg, a, (ra - 1 + 1) * row_size));
        }
        assert forall|b: int| #[trigger] below(loose, ig, a, b) implies loose_end(loose, reg, b)
            <= loose[a].0 && (loose[b].0 == 0 || reached(loose, ig, reg, a, loose[b].0 as int)) by {
            let rb = row_of[b];
            let jb = rows[rb][pos_of[b]];
            assert(jobs.contains(rows[rb][pos_of[b]]));
            let j = choose|j: int| 0 <= j < jobs.len() && jobs[j] == jb;
            assert(reg[jobs[j].id].descr == jobs[j]);
            assert(jobs[j].size == row_size);
            assert(linked(ig, jobs[i].id, jobs[j].id));
            assert(i != j && overlap(*jobs[i], *jobs[j]));
            if ra == rb {
                if pos_of[a] < pos_of[b] {
                    assert(rows[ra][pos_of[a]].death <= rows[ra][pos_of[b]].birth);
                } else if pos_of[b] < pos_of[a] {
                    assert(rows[ra][pos_of[b]].death <= rows[ra][pos_of[a]].birth);
                }
            }
            assert(rb < ra) by (nonlinear_arith)
                requires
                    rb * row_size <= ra * row_size,
                    ra != rb,
                    0 <= ra,
                    0 <= rb,
                    row_size > 0,
            ;
            assert(rb * row_size + row_size <= ra * row_size) by (nonlinear_arith)
                requires
                    rb < ra,
                    0 <= rb,
                    row_size > 0,
            ;
            if loose[b].0 != 0 {
                assert(rb > 0) by {
                    if rb == 0 {
                        assert(0 * row_size == 0) by (nonlinear_arith);
                    }
                }
                assert(rows[rb - 1].len() >= 0);
                assert(reached(loose, ig, reg, a, (rb - 1 + 1) * row_size));
            }
        }
    }
}

} // verus!
