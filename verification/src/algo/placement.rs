use crate::analyze::uniform;
use crate::helpe::{
    corrected, is_traversal, key_le, lemma_corrected, lemma_same_elements, lookup, neighbours,
    record, sorted_unstable, stands, Event, EventKind, InterferenceGraph, LoosePlacement,
    PlacedJob, PlacedJobRegistry, UnboxCtrl,
};
use crate::instance::Instance;
use crate::job::{share, ByteSteps, Job, JobSet};
use crate::jobset::{get_events, interval_graph_coloring};
use crate::model::{
    is_coloring, is_peak, lemma_nesting_among, lemma_nesting_contents, lemma_row_members,
    nesting, proper_lifetimes, rows_view,
};
use std::sync::Arc;
use vstd::prelude::*;

verus! {

/// The first offset above a placed job.
pub open spec fn end_of(pj: PlacedJob) -> int {
    pj.offset + pj.descr.size
}

/// The address ranges of the two placed jobs have nothing in common.
pub open spec fn apart(a: PlacedJob, b: PlacedJob) -> bool {
    end_of(a) <= b.offset || end_of(b) <= a.offset
}

/// The same jobs under the same identifiers; offsets may differ.
pub open spec fn same_jobs(before: Map<u32, PlacedJob>, after: Map<u32, PlacedJob>) -> bool {
    &&& before.dom() == after.dom()
    &&& forall|id: u32| #[trigger] before.contains_key(id) ==> after[id].descr == before[id].descr
}

/// Every job of the registry has its neighbours in the graph; they are
/// jobs of the registry other than itself, and have it as a neighbour.
pub open spec fn graph_fits(ig: Map<u32, Vec<u32>>, reg: Map<u32, PlacedJob>) -> bool {
    &&& forall|a: u32| #[trigger] reg.contains_key(a) ==> ig.contains_key(a)
    &&& forall|a: u32, i: int|
        #![trigger ig[a][i]]
        reg.contains_key(a) && 0 <= i < ig[a].len() ==> reg.contains_key(ig[a][i]) && ig[a][i] != a
            && ig[ig[a][i]]@.contains(a)
}

/// No job of the registry has an alignment of zero.
pub open spec fn registry_ok(reg: Map<u32, PlacedJob>) -> bool {
    forall|id: u32| #[trigger] reg.contains_key(id) ==> reg[id].descr.alignment != Some(0usize)
}

/// The job was squeezed in the round with this stamp.
pub open spec fn stamped(reg: Map<u32, PlacedJob>, id: u32, stamp: u32) -> bool {
    reg.contains_key(id) && reg[id].times_squeezed == stamp
}

/// Among the jobs squeezed in the round, no two neighbours share an
/// address.
pub open spec fn squeezed_apart(ig: Map<u32, Vec<u32>>, reg: Map<u32, PlacedJob>, stamp: u32) -> bool {
    forall|a: u32, i: int|
        #![trigger ig[a][i]]
        stamped(reg, a, stamp) && 0 <= i < ig[a].len() && stamped(reg, ig[a][i], stamp) ==> apart(
            reg[a],
            reg[ig[a][i]],
        )
}

/// The state of a walk over the placed neighbours of a job, lowest
/// first, in search of a gap for it.
pub struct Walk {
    /// The highest end met so far.
    pub runner: int,
    /// The size of the smallest gap found that takes the job.
    pub smallest_gap: int,
    /// Where that gap begins.
    pub best: Option<int>,
    /// A first fit was found; the walk is over.
    pub stopped: bool,
}

/// The walk past one more neighbour, which spans `[nb.0, nb.1)`. Where
/// the neighbour lies above the runner, the gap below it is tried from
/// the runner's corrected offset upward.
pub open spec fn walk_step(
    w: Walk,
    nb: (usize, usize, usize),
    size: int,
    alignment: Option<usize>,
    start: int,
    first_fit: bool,
) -> Walk {
    if w.stopped {
        w
    } else if nb.0 > w.runner {
        let test = corrected(start, w.runner, alignment);
        let reach = if test > nb.1 {
            test
        } else {
            nb.1 as int
        };
        if nb.0 > test && nb.0 - test >= size {
            if first_fit {
                Walk { best: Some(test), stopped: true, ..w }
            } else if nb.0 - test < w.smallest_gap {
                Walk { runner: reach, smallest_gap: nb.0 - test, best: Some(test), stopped: false }
            } else {
                Walk { runner: reach, ..w }
            }
        } else {
            Walk { runner: reach, ..w }
        }
    } else {
        Walk {
            runner: if w.runner > nb.1 {
                w.runner
            } else {
                nb.1 as int
            },
            ..w
        }
    }
}

/// The walk past all of `nbs`.
pub open spec fn walk(
    nbs: Seq<(usize, usize, usize)>,
    size: int,
    alignment: Option<usize>,
    start: int,
    first_fit: bool,
) -> Walk
    decreases nbs.len(),
{
    if nbs.len() == 0 {
        Walk { runner: 0, smallest_gap: usize::MAX as int, best: None, stopped: false }
    } else {
        walk_step(
            walk(nbs.drop_last(), size, alignment, start, first_fit),
            nbs.last(),
            size,
            alignment,
            start,
            first_fit,
        )
    }
}

/// Where the walk lets the job stand: in the gap it chose, or else on
/// top of all.
pub open spec fn fitted(
    nbs: Seq<(usize, usize, usize)>,
    size: int,
    alignment: Option<usize>,
    start: int,
    first_fit: bool,
) -> int {
    let w = walk(nbs, size, alignment, start, first_fit);
    match w.best {
        Some(o) => o,
        None => w.runner,
    }
}

/// Somewhere along the walk the runner leaves the machine word.
pub open spec fn walk_overflows(
    nbs: Seq<(usize, usize, usize)>,
    size: int,
    alignment: Option<usize>,
    start: int,
    first_fit: bool,
) -> bool {
    exists|p: int|
        0 <= p <= nbs.len() && (#[trigger] walk(nbs.take(p), size, alignment, start, first_fit)).runner
            > usize::MAX
}

/// A job of the given size at offset `o` shares no address with any of
/// the neighbours.
pub open spec fn clear_of(nbs: Seq<(usize, usize, usize)>, o: int, size: int) -> bool {
    forall|q: int| 0 <= q < nbs.len() ==> (#[trigger] nbs[q]).1 <= o || o + size <= nbs[q].0
}

/// The offset is one that the alignment allows, or it is zero, or it is
/// the end of a neighbour.
pub open spec fn lands(
    nbs: Seq<(usize, usize, usize)>,
    o: int,
    alignment: Option<usize>,
    start: int,
) -> bool {
    stands(start, o, alignment) || o == 0 || exists|q: int| 0 <= q < nbs.len() && o == (#[trigger] nbs[q]).1
}

/// Once a walk has stopped, more neighbours do not change it.
pub proof fn lemma_walk_stopped(
    nbs: Seq<(usize, usize, usize)>,
    p: int,
    size: int,
    alignment: Option<usize>,
    start: int,
    first_fit: bool,
)
    requires
        0 <= p <= nbs.len(),
        walk(nbs.take(p), size, alignment, start, first_fit).stopped,
    ensures
        walk(nbs, size, alignment, start, first_fit) == walk(
            nbs.take(p),
            size,
            alignment,
            start,
            first_fit,
        ),
    decreases nbs.len() - p,
{
    if p < nbs.len() {
        assert(nbs.take(p + 1).drop_last() =~= nbs.take(p));
        lemma_walk_stopped(nbs, p + 1, size, alignment, start, first_fit);
    } else {
        assert(nbs.take(p) =~= nbs);
    }
}

/// Walks over the placed neighbours of a job, lowest first, and finds
/// where the job comes to stand; `None` where the walk leaves the machine
/// word.
pub fn fit(nbs: &Vec<(usize, usize, usize)>, to_squeeze: &PlacedJob, start_addr: ByteSteps, first_fit: bool) -> (res:
    Option<ByteSteps>)
    requires
        forall|i: int, j: int| 0 <= i <= j < nbs.len() ==> key_le(#[trigger] nbs[i], #[trigger] nbs[j]),
        forall|q: int| 0 <= q < nbs.len() ==> (#[trigger] nbs[q]).0 <= nbs[q].1,
        to_squeeze.descr.alignment != Some(0usize),
    ensures
        res matches Some(o) ==> o == fitted(
            nbs@,
            to_squeeze.descr.size as int,
            to_squeeze.descr.alignment,
            start_addr as int,
            first_fit,
        ) && clear_of(nbs@, o as int, to_squeeze.descr.size as int) && lands(
            nbs@,
            o as int,
            to_squeeze.descr.alignment,
            start_addr as int,
        ),
        res is None ==> walk_overflows(
            nbs@,
            to_squeeze.descr.size as int,
            to_squeeze.descr.alignment,
            start_addr as int,
            first_fit,
        ),
{
    let min_gap_size = to_squeeze.descr.size;
    let ghost size = to_squeeze.descr.size as int;
    let ghost alignment = to_squeeze.descr.alignment;
    let ghost start = start_addr as int;
    let mut offset_runner: usize = 0;
    let mut smallest_gap: usize = usize::MAX;
    let mut best_offset: Option<usize> = None;
    let mut p: usize = 0;
    proof {
        assert(nbs@.take(0) =~= Seq::<(usize, usize, usize)>::empty());
        lemma_corrected(start, 0, alignment);
    }
    while p < nbs.len()
        invariant
            p <= nbs.len(),
            size == to_squeeze.descr.size,
            alignment == to_squeeze.descr.alignment,
            alignment != Some(0usize),
            start == start_addr,
            min_gap_size == size,
            forall|i: int, j: int|
                0 <= i <= j < nbs.len() ==> key_le(#[trigger] nbs[i], #[trigger] nbs[j]),
            forall|q: int| 0 <= q < nbs.len() ==> (#[trigger] nbs[q]).0 <= nbs[q].1,
            walk(nbs@.take(p as int), size, alignment, start, first_fit) == (Walk {
                runner: offset_runner as int,
                smallest_gap: smallest_gap as int,
                best: match best_offset {
                    Some(o) => Some(o as int),
                    None => None,
                },
                stopped: false,
            }),
            forall|q: int| 0 <= q < p ==> (#[trigger] nbs[q]).1 <= offset_runner,
            best_offset matches Some(o) ==> clear_of(nbs@, o as int, size) && stands(
                start,
                o as int,
                alignment,
            ),
            lands(nbs@, offset_runner as int, alignment, start),
        decreases nbs.len() - p,
    {
        let (njo, next_avail, _) = nbs[p];
        proof {
            assert(nbs@.take(p + 1).drop_last() =~= nbs@.take(p as int));
            assert(nbs@.take(p + 1).last() == nbs[p as int]);
            lemma_corrected(start, offset_runner as int, alignment);
        }
        if njo > offset_runner {
            let test_off = match to_squeeze.checked_corrected_offset(start_addr, offset_runner) {
                Some(o) => o,
                None => {
                    proof {
                        assert(walk(nbs@.take(p + 1), size, alignment, start, first_fit).runner
                            > usize::MAX);
                    }
                    return None;
                },
            };
            if njo > test_off && njo - test_off >= min_gap_size {
                proof {
                    assert(clear_of(nbs@, test_off as int, size)) by {
                        assert forall|q: int| 0 <= q < nbs.len() implies (#[trigger] nbs[q]).1
                            <= test_off || test_off + size <= nbs[q].0 by {
                            if q >= p {
                                assert(key_le(nbs[p as int], nbs[q]));
                            }
                        }
                    }
                }
                if !first_fit {
                    let gap = njo - test_off;
                    if gap < smallest_gap {
                        smallest_gap = gap;
                        best_offset = Some(test_off);
                    }
                } else {
                    proof {
                        lemma_walk_stopped(nbs@, p + 1, size, alignment, start, first_fit);
                    }
                    return Some(test_off);
                }
            }
            offset_runner = if test_off > next_avail {
                test_off
            } else {
                next_avail
            };
        } else {
            offset_runner = if offset_runner > next_avail {
                offset_runner
            } else {
                next_avail
            };
        }
        proof {
            if offset_runner == next_avail {
                assert(offset_runner == nbs[p as int].1);
            }
        }
        p += 1;
    }
    proof {
        assert(nbs@.take(nbs.len() as int) =~= nbs@);
    }
    match best_offset {
        Some(o) => Some(o),
        None => {
            proof {
                assert(clear_of(nbs@, offset_runner as int, size));
            }
            Some(offset_runner)
        },
    }
}

/// The key under which a placed neighbour is walked over: where it
/// begins, where it ends, and which job it is.
pub open spec fn span_key(reg: Map<u32, PlacedJob>, n: u32) -> (usize, usize, usize) {
    (reg[n].offset, (reg[n].offset + reg[n].descr.size) as usize, n as usize)
}

/// `key` is the span of one of the first `upto` of `ns` that bears the
/// stamp.
pub open spec fn is_span_among(
    reg: Map<u32, PlacedJob>,
    ns: Seq<u32>,
    upto: int,
    stamp: u32,
    key: (usize, usize, usize),
) -> bool {
    exists|i: int| 0 <= i < upto && stamped(reg, #[trigger] ns[i], stamp) && key == span_key(reg, ns[i])
}

/// The spans of those among `ns` that were squeezed in the round with
/// the given stamp.
fn gather(ns: &Vec<u32>, reg: &PlacedJobRegistry, stamp: u32) -> (keys: Vec<(usize, usize, usize)>)
    requires
        forall|i: int| 0 <= i < ns.len() ==> reg@.contains_key(#[trigger] ns[i]),
        forall|id: u32| stamped(reg@, id, stamp) ==> end_of(#[trigger] reg@[id]) <= usize::MAX,
    ensures
        forall|i: int|
            0 <= i < ns.len() && stamped(reg@, #[trigger] ns[i], stamp) ==> keys@.contains(
                span_key(reg@, ns[i]),
            ),
        forall|q: int|
            0 <= q < keys.len() ==> is_span_among(reg@, ns@, ns.len() as int, stamp, #[trigger] keys[q]),
{
    let mut keys: Vec<(usize, usize, usize)> = Vec::new();
    let mut i: usize = 0;
    while i < ns.len()
        invariant
            i <= ns.len(),
            forall|i: int| 0 <= i < ns.len() ==> reg@.contains_key(#[trigger] ns[i]),
            forall|id: u32| stamped(reg@, id, stamp) ==> end_of(#[trigger] reg@[id]) <= usize::MAX,
            forall|k: int|
                0 <= k < i && stamped(reg@, #[trigger] ns[k], stamp) ==> keys@.contains(
                    span_key(reg@, ns[k]),
                ),
            forall|q: int|
                0 <= q < keys.len() ==> is_span_among(reg@, ns@, i as int, stamp, #[trigger] keys[q]),
        decreases ns.len() - i,
    {
        let ghost before = keys@;
        let n = ns[i];
        match lookup(reg, n) {
            Some(pj) => {
                if pj.times_squeezed == stamp {
                    keys.push((pj.offset, pj.offset + pj.descr.size, n as usize));
                    proof {
                        assert(keys@[before.len() as int] == span_key(reg@, n));
                        assert forall|k: int|
                            0 <= k < i + 1 && stamped(reg@, #[trigger] ns[k], stamp) implies keys@.contains(
                            span_key(reg@, ns[k]),
                        ) by {
                            if k < i {
                                let w = choose|w: int|
                                    0 <= w < before.len() && before[w] == span_key(reg@, ns[k]);
                                assert(keys@[w] == span_key(reg@, ns[k]));
                            }
                        }
                        assert forall|q: int| 0 <= q < keys.len() implies is_span_among(
                            reg@,
                            ns@,
                            i + 1,
                            stamp,
                            #[trigger] keys[q],
                        ) by {
                            if q < before.len() {
                                assert(keys[q] == before[q]);
                                assert(is_span_among(reg@, ns@, i as int, stamp, before[q]));
                                let k = choose|k: int|
                                    0 <= k < i && stamped(reg@, #[trigger] ns[k], stamp) && before[q]
                                        == span_key(reg@, ns[k]);
                                assert(stamped(reg@, ns[k], stamp));
                            } else {
                                assert(stamped(reg@, ns[i as int], stamp));
                            }
                        }
                    }
                } else {
                    proof {
                        assert forall|q: int| 0 <= q < keys.len() implies is_span_among(
                            reg@,
                            ns@,
                            i + 1,
                            stamp,
                            #[trigger] keys[q],
                        ) by {
                            assert(is_span_among(reg@, ns@, i as int, stamp, keys[q]));
                            let k = choose|k: int|
                                0 <= k < i && stamped(reg@, #[trigger] ns[k], stamp) && keys[q]
                                    == span_key(reg@, ns[k]);
                            assert(stamped(reg@, ns[k], stamp));
                        }
                    }
                }
            },
            None => {},
        }
        i += 1;
    }
    keys
}

/// The stamp of the round that follows `iters_done` rounds.
pub open spec fn next_stamp(iters_done: u32) -> u32 {
    (iters_done + 1) as u32
}

/// The identifiers of the loosely placed jobs.
pub open spec fn loose_ids(loose: Seq<(ByteSteps, u32)>) -> Seq<u32> {
    Seq::new(loose.len(), |k: int| loose[k].1)
}

/// The first loose entry is taken before the second.
pub open spec fn comes_before(a: (ByteSteps, u32), b: (ByteSteps, u32)) -> bool {
    a.0 < b.0 || (a.0 == b.0 && a.1 < b.1)
}

/// In the loose placement, `b` is a neighbour of `a` that is taken
/// before it.
pub open spec fn below(loose: Seq<(ByteSteps, u32)>, ig: Map<u32, Vec<u32>>, a: int, b: int) -> bool {
    0 <= b < loose.len() && ig[loose[a].1]@.contains(loose[b].1) && comes_before(loose[b], loose[a])
}

/// Where a loosely placed job ends.
pub open spec fn loose_end(loose: Seq<(ByteSteps, u32)>, reg: Map<u32, PlacedJob>, b: int) -> int {
    loose[b].0 + reg[loose[b].1].descr.size
}

/// Some neighbour of `a` that is taken before it ends at `t`.
pub open spec fn reached(
    loose: Seq<(ByteSteps, u32)>,
    ig: Map<u32, Vec<u32>>,
    reg: Map<u32, PlacedJob>,
    a: int,
    t: int,
) -> bool {
    exists|c: int| #[trigger] below(loose, ig, a, c) && loose_end(loose, reg, c) == t
}

/// The loose placement is a stack: every job has a size; it stands at
/// zero or right on a neighbour taken before it; and the neighbours taken
/// before it end no higher than it begins and stand, themselves, at zero
/// or right on another of them.
pub open spec fn stacks(loose: Seq<(ByteSteps, u32)>, ig: Map<u32, Vec<u32>>, reg: Map<u32, PlacedJob>) -> bool {
    forall|a: int|
        0 <= a < loose.len() ==> {
            &&& reg[(#[trigger] loose[a]).1].descr.size > 0
            &&& loose[a].0 == 0 || reached(loose, ig, reg, a, loose[a].0 as int)
            &&& forall|b: int|
                #[trigger] below(loose, ig, a, b) ==> loose_end(loose, reg, b) <= loose[a].0 && (
                loose[b].0 == 0 || reached(loose, ig, reg, a, loose[b].0 as int))
        }
}

/// Every loosely placed job ends no higher than `lim`.
pub open spec fn ends_within(loose: Seq<(ByteSteps, u32)>, reg: Map<u32, PlacedJob>, lim: int) -> bool {
    forall|k: int| 0 <= k < loose.len() ==> #[trigger] loose_end(loose, reg, k) <= lim
}

/// The jobs stand where the loose placement has them, and `makespan` is
/// where the highest of them ends.
pub open spec fn kept_stack(
    loose: Seq<(ByteSteps, u32)>,
    reg0: Map<u32, PlacedJob>,
    reg: Map<u32, PlacedJob>,
    makespan: int,
) -> bool {
    &&& forall|k: int| 0 <= k < loose.len() ==> reg[(#[trigger] loose[k]).1].offset == loose[k].0
    &&& ends_within(loose, reg0, makespan)
    &&& if loose.len() == 0 {
        makespan == 0
    } else {
        exists|k: int| 0 <= k < loose.len() && #[trigger] loose_end(loose, reg0, k) == makespan
    }
}

/// Every neighbour begins at zero or where another one ends.
pub open spec fn stacked(nbs: Seq<(usize, usize, usize)>) -> bool {
    forall|q: int|
        0 <= q < nbs.len() ==> (#[trigger] nbs[q]).0 < nbs[q].1 && (nbs[q].0 == 0 || exists|o: int|
            0 <= o < nbs.len() && (#[trigger] nbs[o]).1 == nbs[q].0)
}

/// A walk over stacked neighbours finds no gap: it ends on top of them.
pub proof fn lemma_walk_stacked(
    nbs: Seq<(usize, usize, usize)>,
    p: int,
    size: int,
    alignment: Option<usize>,
    start: int,
    first_fit: bool,
)
    requires
        forall|i: int, j: int| 0 <= i <= j < nbs.len() ==> key_le(#[trigger] nbs[i], #[trigger] nbs[j]),
        stacked(nbs),
        0 <= p <= nbs.len(),
    ensures
        !walk(nbs.take(p), size, alignment, start, first_fit).stopped,
        walk(nbs.take(p), size, alignment, start, first_fit).best is None,
        forall|q: int|
            0 <= q < p ==> (#[trigger] nbs[q]).1 <= walk(nbs.take(p), size, alignment, start, first_fit).runner,
        p == 0 ==> walk(nbs.take(p), size, alignment, start, first_fit).runner == 0,
        p > 0 ==> exists|q: int|
            0 <= q < p && (#[trigger] nbs[q]).1 == walk(
                nbs.take(p),
                size,
                alignment,
                start,
                first_fit,
            ).runner,
    decreases p,
{
    if p == 0 {
        assert(nbs.take(0) =~= Seq::<(usize, usize, usize)>::empty());
    } else {
        lemma_walk_stacked(nbs, p - 1, size, alignment, start, first_fit);
        assert(nbs.take(p).drop_last() =~= nbs.take(p - 1));
        assert(nbs.take(p).last() == nbs[p - 1]);
        let w = walk(nbs.take(p - 1), size, alignment, start, first_fit);
        // The neighbour begins no higher than the runner.
        assert(nbs[p - 1].0 <= w.runner) by {
            if nbs[p - 1].0 != 0 {
                let o = choose|o: int| 0 <= o < nbs.len() && (#[trigger] nbs[o]).1 == nbs[p - 1].0;
                assert(nbs[o].0 < nbs[o].1);
                if o >= p - 1 {
                    assert(key_le(nbs[p - 1], nbs[o]));
                }
                assert(nbs[o].1 <= w.runner);
            }
        }
        let next = walk(nbs.take(p), size, alignment, start, first_fit);
        assert forall|q: int| 0 <= q < p implies (#[trigger] nbs[q]).1 <= next.runner by {
            if q < p - 1 {
                assert(nbs[q].1 <= w.runner);
            }
        }
        if next.runner == nbs[p - 1].1 {
            assert(nbs[p - 1].1 == next.runner);
        } else {
            let q = choose|q: int| 0 <= q < p - 1 && (#[trigger] nbs[q]).1 == w.runner;
            assert(nbs[q].1 == next.runner);
        }
    }
}

/// The state in the middle of squeezing, as the job at `at` of the loose
/// placement is about to be taken: the jobs of `done` were taken, in the
/// order of their loose offsets; `nbs` holds the spans of the neighbours
/// among them.
pub open spec fn mid_squeeze(
    loose: Seq<(ByteSteps, u32)>,
    ig: Map<u32, Vec<u32>>,
    reg0: Map<u32, PlacedJob>,
    before: Map<u32, PlacedJob>,
    order: Seq<(usize, usize, usize)>,
    done: Seq<u32>,
    at: int,
    nbs: Seq<(usize, usize, usize)>,
    stamp: u32,
) -> bool {
    &&& graph_fits(ig, reg0)
    &&& same_jobs(reg0, before)
    &&& order.len() == loose.len()
    &&& forall|q: int|
        0 <= q < loose.len() ==> order.contains((loose[q].0, (#[trigger] loose[q]).1 as usize, 0usize))
    &&& forall|p: int|
        0 <= p < order.len() ==> exists|q: int|
            0 <= q < loose.len() && #[trigger] order[p] == (loose[q].0, (#[trigger] loose[q]).1 as usize, 0usize)
    &&& forall|i: int, j: int| 0 <= i <= j < order.len() ==> key_le(#[trigger] order[i], #[trigger] order[j])
    &&& done.len() < order.len()
    &&& forall|q: int| 0 <= q < done.len() ==> #[trigger] done[q] == order[q].1
    &&& forall|id: u32| stamped(before, id, stamp) <==> done.contains(id)
    &&& forall|id: u32| #[trigger] stamped(before, id, stamp) ==> end_of(before[id]) <= usize::MAX
    &&& 0 <= at < loose.len()
    &&& order[done.len() as int] == (loose[at].0, loose[at].1 as usize, 0usize)
    &&& reg0.contains_key(loose[at].1)
    &&& forall|i: int|
        0 <= i < ig[loose[at].1].len() && stamped(before, #[trigger] ig[loose[at].1][i], stamp) ==> nbs.contains(
            span_key(before, ig[loose[at].1][i]),
        )
    &&& forall|q: int|
        0 <= q < nbs.len() ==> is_span_among(
            before,
            ig[loose[at].1]@,
            ig[loose[at].1].len() as int,
            stamp,
            #[trigger] nbs[q],
        )
    &&& forall|i: int, j: int| 0 <= i <= j < nbs.len() ==> key_le(#[trigger] nbs[i], #[trigger] nbs[j])
}

/// The state in the middle of squeezing a stack: as in the middle of
/// squeezing, and every job that was taken stands at its loose offset.
pub open spec fn mid_stack(
    loose: Seq<(ByteSteps, u32)>,
    ig: Map<u32, Vec<u32>>,
    reg0: Map<u32, PlacedJob>,
    before: Map<u32, PlacedJob>,
    order: Seq<(usize, usize, usize)>,
    done: Seq<u32>,
    at: int,
    nbs: Seq<(usize, usize, usize)>,
    stamp: u32,
) -> bool {
    &&& mid_squeeze(loose, ig, reg0, before, order, done, at, nbs, stamp)
    &&& forall|q: int| 0 <= q < done.len() ==> before[done[q]].offset == (#[trigger] order[q]).0
}

/// `key` is the span of a neighbour of the job at `at` that is taken
/// before it.
pub open spec fn span_below(
    loose: Seq<(ByteSteps, u32)>,
    ig: Map<u32, Vec<u32>>,
    reg: Map<u32, PlacedJob>,
    at: int,
    key: (usize, usize, usize),
) -> bool {
    exists|b: int| #[trigger] below(loose, ig, at, b) && key == span_key(reg, loose[b].1)
}

/// `nbs` holds, lowest first, the spans of the neighbours of the job at
/// `at` that are taken before it.
pub open spec fn earlier_spans(
    loose: Seq<(ByteSteps, u32)>,
    ig: Map<u32, Vec<u32>>,
    reg: Map<u32, PlacedJob>,
    at: int,
    nbs: Seq<(usize, usize, usize)>,
) -> bool {
    &&& forall|i: int, j: int| 0 <= i <= j < nbs.len() ==> key_le(#[trigger] nbs[i], #[trigger] nbs[j])
    &&& forall|q: int| 0 <= q < nbs.len() ==> span_below(loose, ig, reg, at, #[trigger] nbs[q])
    &&& forall|b: int| #[trigger] below(loose, ig, at, b) ==> nbs.contains(span_key(reg, loose[b].1))
}

/// The job at `at` stands where the walk over its neighbours that are
/// taken before it finds its place.
pub open spec fn walked(
    loose: Seq<(ByteSteps, u32)>,
    ig: Map<u32, Vec<u32>>,
    reg: Map<u32, PlacedJob>,
    start: int,
    first_fit: bool,
    at: int,
) -> bool {
    exists|nbs: Seq<(usize, usize, usize)>| #[trigger]
        earlier_spans(loose, ig, reg, at, nbs) && reg[loose[at].1].offset == fitted(
            nbs,
            reg[loose[at].1].descr.size as int,
            reg[loose[at].1].descr.alignment,
            start,
            first_fit,
        )
}

/// In the middle of squeezing, a loose entry that comes before the one
/// at hand was taken.
pub proof fn lemma_earlier_taken(
    loose: Seq<(ByteSteps, u32)>,
    ig: Map<u32, Vec<u32>>,
    reg0: Map<u32, PlacedJob>,
    before: Map<u32, PlacedJob>,
    order: Seq<(usize, usize, usize)>,
    done: Seq<u32>,
    at: int,
    nbs: Seq<(usize, usize, usize)>,
    stamp: u32,
    upto: int,
    c: int,
) -> (p: int)
    requires
        mid_squeeze(loose, ig, reg0, before, order, done, at, nbs, stamp),
        0 <= upto <= done.len(),
        0 <= c < loose.len(),
        key_le((loose[c].0, loose[c].1 as usize, 0usize), order[upto]),
        (loose[c].0, loose[c].1 as usize, 0usize) != order[upto],
    ensures
        0 <= p < upto,
        order[p] == (loose[c].0, loose[c].1 as usize, 0usize),
        done[p] == loose[c].1,
        stamped(before, loose[c].1, stamp),
{
    let key = (loose[c].0, loose[c].1 as usize, 0usize);
    assert(order.contains(key));
    let p = choose|p: int| 0 <= p < order.len() && order[p] == key;
    if p >= upto {
        assert(key_le(order[upto], order[p]));
    }
    assert(done.contains(done[p]));
    p
}

/// In the middle of squeezing, the spans are those of the neighbours
/// that are taken before the job at hand.
pub proof fn lemma_spans_are_earlier(
    loose: Seq<(ByteSteps, u32)>,
    ig: Map<u32, Vec<u32>>,
    reg0: Map<u32, PlacedJob>,
    before: Map<u32, PlacedJob>,
    order: Seq<(usize, usize, usize)>,
    done: Seq<u32>,
    at: int,
    nbs: Seq<(usize, usize, usize)>,
    stamp: u32,
)
    requires
        mid_squeeze(loose, ig, reg0, before, order, done, at, nbs, stamp),
    ensures
        earlier_spans(loose, ig, before, at, nbs),
{
    let k = done.len() as int;
    let id = loose[at].1;
    let ns = ig[id]@;
    assert forall|q: int| 0 <= q < nbs.len() implies span_below(loose, ig, before, at, #[trigger] nbs[q]) by {
        assert(is_span_among(before, ns, ns.len() as int, stamp, nbs[q]));
        let i = choose|i: int|
            0 <= i < ns.len() && stamped(before, #[trigger] ns[i], stamp) && nbs[q] == span_key(before, ns[i]);
        let n = ns[i];
        assert(done.contains(n));
        let p = choose|p: int| 0 <= p < done.len() && done[p] == n;
        assert(key_le(order[p], order[k]));
        let b = choose|b: int|
            0 <= b < loose.len() && #[trigger] order[p] == (loose[b].0, (#[trigger] loose[b]).1 as usize, 0usize);
        assert(loose[b].1 == n);
        assert(ig[id][i] != id);
        assert(ig[id]@[i] == n);
        assert(below(loose, ig, at, b));
    }
    assert forall|c: int| #[trigger] below(loose, ig, at, c) implies nbs.contains(
        span_key(before, loose[c].1),
    ) by {
        let n = loose[c].1;
        let p = lemma_earlier_taken(loose, ig, reg0, before, order, done, at, nbs, stamp, k, c);
        let x = choose|x: int| 0 <= x < ig[id]@.len() && ig[id]@[x] == n;
        assert(ig[id][x] == n);
    }
}

/// A step of squeezing: where every job taken so far stands as the walk
/// over its earlier neighbours has it, and the job at hand is put where
/// its own walk ends, every job taken stands so.
pub proof fn lemma_walked_step(
    loose: Seq<(ByteSteps, u32)>,
    ig: Map<u32, Vec<u32>>,
    reg0: Map<u32, PlacedJob>,
    before: Map<u32, PlacedJob>,
    after: Map<u32, PlacedJob>,
    order: Seq<(usize, usize, usize)>,
    done: Seq<u32>,
    ats: Seq<int>,
    at: int,
    nbs: Seq<(usize, usize, usize)>,
    stamp: u32,
    start: int,
    first_fit: bool,
    placed: PlacedJob,
)
    requires
        mid_squeeze(loose, ig, reg0, before, order, done, at, nbs, stamp),
        !stamped(before, loose[at].1, stamp),
        after == before.insert(loose[at].1, placed),
        placed.descr == before[loose[at].1].descr,
        placed.offset == fitted(nbs, placed.descr.size as int, placed.descr.alignment, start, first_fit),
        ats.len() == done.len(),
        forall|q: int|
            0 <= q < ats.len() ==> 0 <= #[trigger] ats[q] < loose.len() && order[q] == (
                loose[ats[q]].0,
                loose[ats[q]].1 as usize,
                0usize,
            ),
        forall|q: int| 0 <= q < ats.len() ==> walked(loose, ig, before, start, first_fit, #[trigger] ats[q]),
    ensures
        forall|q: int|
            0 <= q < ats.len() + 1 ==> walked(loose, ig, after, start, first_fit, #[trigger] ats.push(at)[q]),
{
    let id = loose[at].1;
    let k = done.len() as int;
    assert forall|q: int| 0 <= q < ats.len() + 1 implies walked(
        loose,
        ig,
        after,
        start,
        first_fit,
        #[trigger] ats.push(at)[q],
    ) by {
        if q < ats.len() {
            let a = ats[q];
            assert(walked(loose, ig, before, start, first_fit, a));
            let old_nbs = choose|old_nbs: Seq<(usize, usize, usize)>| #[trigger]
                earlier_spans(loose, ig, before, a, old_nbs) && before[loose[a].1].offset == fitted(
                    old_nbs,
                    before[loose[a].1].descr.size as int,
                    before[loose[a].1].descr.alignment,
                    start,
                    first_fit,
                );
            assert(done.contains(done[q]));
            assert(loose[a].1 != id);
            // A neighbour taken before a job that was taken is not the
            // job at hand.
            assert forall|b: int| #[trigger] below(loose, ig, a, b) implies loose[b].1 != id by {
                let p = lemma_earlier_taken(loose, ig, reg0, before, order, done, at, nbs, stamp, q, b);
            }
            assert forall|w: int| 0 <= w < old_nbs.len() implies span_below(
                loose,
                ig,
                after,
                a,
                #[trigger] old_nbs[w],
            ) by {
                assert(span_below(loose, ig, before, a, old_nbs[w]));
                let b = choose|b: int| #[trigger]
                    below(loose, ig, a, b) && old_nbs[w] == span_key(before, loose[b].1);
                assert(below(loose, ig, a, b) && old_nbs[w] == span_key(after, loose[b].1));
            }
            assert(earlier_spans(loose, ig, after, a, old_nbs));
        } else {
            lemma_spans_are_earlier(loose, ig, reg0, before, order, done, at, nbs, stamp);
            assert forall|b: int| #[trigger] below(loose, ig, at, b) implies loose[b].1 != id by {
                let p = lemma_earlier_taken(loose, ig, reg0, before, order, done, at, nbs, stamp, k, b);
            }
            assert forall|w: int| 0 <= w < nbs.len() implies span_below(loose, ig, after, at, #[trigger] nbs[w]) by {
                assert(span_below(loose, ig, before, at, nbs[w]));
                let b = choose|b: int| #[trigger]
                    below(loose, ig, at, b) && nbs[w] == span_key(before, loose[b].1);
                assert(below(loose, ig, at, b) && nbs[w] == span_key(after, loose[b].1));
            }
            assert(earlier_spans(loose, ig, after, at, nbs));
        }
    }
}

/// The span `nbs[q]` is that of the loose entry `b`, a neighbour taken
/// before the job at `at`.
pub open spec fn span_of(
    loose: Seq<(ByteSteps, u32)>,
    ig: Map<u32, Vec<u32>>,
    reg0: Map<u32, PlacedJob>,
    nbs: Seq<(usize, usize, usize)>,
    at: int,
    q: int,
    b: int,
) -> bool {
    below(loose, ig, at, b) && nbs[q].0 == loose[b].0 && nbs[q].1 == loose_end(loose, reg0, b)
}

/// In the middle of squeezing a stack, every span is that of a neighbour
/// taken before.
pub proof fn lemma_span_is_below(
    loose: Seq<(ByteSteps, u32)>,
    ig: Map<u32, Vec<u32>>,
    reg0: Map<u32, PlacedJob>,
    before: Map<u32, PlacedJob>,
    order: Seq<(usize, usize, usize)>,
    done: Seq<u32>,
    at: int,
    nbs: Seq<(usize, usize, usize)>,
    stamp: u32,
    q: int,
) -> (b: int)
    requires
        mid_stack(loose, ig, reg0, before, order, done, at, nbs, stamp),
        0 <= q < nbs.len(),
    ensures
        span_of(loose, ig, reg0, nbs, at, q, b),
{
    let k = done.len() as int;
    let id = loose[at].1;
    let ns = ig[id]@;
    assert(is_span_among(before, ns, ns.len() as int, stamp, nbs[q]));
    let i = choose|i: int|
        0 <= i < ns.len() && stamped(before, #[trigger] ns[i], stamp) && nbs[q] == span_key(before, ns[i]);
    let n = ns[i];
    assert(done.contains(n));
    let p = choose|p: int| 0 <= p < done.len() && done[p] == n;
    assert(key_le(order[p], order[k]));
    let b = choose|b: int|
        0 <= b < loose.len() && #[trigger] order[p] == (loose[b].0, (#[trigger] loose[b]).1 as usize, 0usize);
    assert(loose[b].1 == n);
    assert(ig[id][i] != id);
    assert(ig[id]@[i] == n);
    assert(before[n].offset == order[p].0);
    assert(before[n].descr == reg0[n].descr);
    b
}

/// In the middle of squeezing a stack, every neighbour taken before has
/// its span among the spans.
pub proof fn lemma_below_has_span(
    loose: Seq<(ByteSteps, u32)>,
    ig: Map<u32, Vec<u32>>,
    reg0: Map<u32, PlacedJob>,
    before: Map<u32, PlacedJob>,
    order: Seq<(usize, usize, usize)>,
    done: Seq<u32>,
    at: int,
    nbs: Seq<(usize, usize, usize)>,
    stamp: u32,
    c: int,
) -> (o: int)
    requires
        mid_stack(loose, ig, reg0, before, order, done, at, nbs, stamp),
        below(loose, ig, at, c),
    ensures
        0 <= o < nbs.len(),
        nbs[o].0 == loose[c].0,
        nbs[o].1 == loose_end(loose, reg0, c),
{
    let k = done.len() as int;
    let id = loose[at].1;
    let n = loose[c].1;
    let key = (loose[c].0, loose[c].1 as usize, 0usize);
    assert(order.contains(key));
    let p = choose|p: int| 0 <= p < order.len() && order[p] == key;
    if p >= k {
        assert(key_le(order[k], order[p]));
    }
    assert(done[p] == n);
    assert(done.contains(n));
    assert(stamped(before, n, stamp));
    let x = choose|x: int| 0 <= x < ig[id]@.len() && ig[id]@[x] == n;
    assert(ig[id][x] == n);
    assert(nbs.contains(span_key(before, ig[id][x])));
    assert(before[n].offset == order[p].0);
    assert(before[n].descr == reg0[n].descr);
    let o = choose|o: int| 0 <= o < nbs.len() && nbs[o] == span_key(before, n);
    o
}

/// While a stack is squeezed, the walk for the next job ends at its loose
/// offset: the neighbours squeezed so far stand where the loose placement
/// has them, stacked and reaching up to that offset.
pub proof fn lemma_fit_on_stack(
    loose: Seq<(ByteSteps, u32)>,
    ig: Map<u32, Vec<u32>>,
    reg0: Map<u32, PlacedJob>,
    before: Map<u32, PlacedJob>,
    order: Seq<(usize, usize, usize)>,
    done: Seq<u32>,
    at: int,
    nbs: Seq<(usize, usize, usize)>,
    stamp: u32,
    start: int,
    first_fit: bool,
)
    requires
        stacks(loose, ig, reg0),
        mid_stack(loose, ig, reg0, before, order, done, at, nbs, stamp),
    ensures
        fitted(
            nbs,
            reg0[loose[at].1].descr.size as int,
            reg0[loose[at].1].descr.alignment,
            start,
            first_fit,
        ) == loose[at].0,
        !walk_overflows(
            nbs,
            reg0[loose[at].1].descr.size as int,
            reg0[loose[at].1].descr.alignment,
            start,
            first_fit,
        ),
{
    let id = loose[at].1;
    let size = reg0[id].descr.size as int;
    let alignment = reg0[id].descr.alignment;
    let s_a = loose[at].0 as int;
    assert(stacked(nbs)) by {
        assert forall|q: int| 0 <= q < nbs.len() implies (#[trigger] nbs[q]).0 < nbs[q].1 && (nbs[q].0 == 0
            || exists|o: int| 0 <= o < nbs.len() && (#[trigger] nbs[o]).1 == nbs[q].0) by {
            let b = lemma_span_is_below(loose, ig, reg0, before, order, done, at, nbs, stamp, q);
            assert(reg0[loose[b].1].descr.size > 0);
            if nbs[q].0 != 0 {
                assert(reached(loose, ig, reg0, at, loose[b].0 as int));
                let c = choose|c: int| #[trigger]
                    below(loose, ig, at, c) && loose_end(loose, reg0, c) == loose[b].0;
                let o = lemma_below_has_span(loose, ig, reg0, before, order, done, at, nbs, stamp, c);
                assert(nbs[o].1 == nbs[q].0);
            }
        }
    }
    lemma_walk_stacked(nbs, nbs.len() as int, size, alignment, start, first_fit);
    assert(nbs.take(nbs.len() as int) =~= nbs);
    assert forall|p: int| 0 <= p <= nbs.len() implies (#[trigger] walk(
        nbs.take(p),
        size,
        alignment,
        start,
        first_fit,
    )).runner <= usize::MAX by {
        lemma_walk_stacked(nbs, p, size, alignment, start, first_fit);
    }
    let offset = fitted(nbs, size, alignment, start, first_fit);
    if s_a != 0 {
        assert(reached(loose, ig, reg0, at, s_a));
        let c = choose|c: int| #[trigger] below(loose, ig, at, c) && loose_end(loose, reg0, c) == s_a;
        let o = lemma_below_has_span(loose, ig, reg0, before, order, done, at, nbs, stamp, c);
        assert(nbs[o].1 <= offset);
    }
    if nbs.len() > 0 {
        let q = choose|q: int| 0 <= q < nbs.len() && (#[trigger] nbs[q]).1 == offset;
        let b = lemma_span_is_below(loose, ig, reg0, before, order, done, at, nbs, stamp, q);
        assert(loose_end(loose, reg0, b) <= s_a);
    }
}

/// `nbs` holds the spans of the neighbours of `id` that bear the stamp,
/// lowest first.
pub open spec fn spans_of(
    ig: Map<u32, Vec<u32>>,
    reg: Map<u32, PlacedJob>,
    stamp: u32,
    id: u32,
    nbs: Seq<(usize, usize, usize)>,
) -> bool {
    &&& forall|i: int, j: int| 0 <= i <= j < nbs.len() ==> key_le(#[trigger] nbs[i], #[trigger] nbs[j])
    &&& forall|q: int|
        0 <= q < nbs.len() ==> is_span_among(reg, ig[id]@, ig[id].len() as int, stamp, #[trigger] nbs[q])
    &&& forall|i: int|
        0 <= i < ig[id].len() && stamped(reg, #[trigger] ig[id][i], stamp) ==> nbs.contains(
            span_key(reg, ig[id][i]),
        )
}

/// The job `id` finds no place within the machine word among its
/// neighbours that bear the stamp.
pub open spec fn finds_no_place(
    ig: Map<u32, Vec<u32>>,
    reg: Map<u32, PlacedJob>,
    stamp: u32,
    start: int,
    first_fit: bool,
    id: u32,
) -> bool {
    exists|nbs: Seq<(usize, usize, usize)>| #[trigger]
        spans_of(ig, reg, stamp, id, nbs) && (walk_overflows(
            nbs,
            reg[id].descr.size as int,
            reg[id].descr.alignment,
            start,
            first_fit,
        ) || fitted(nbs, reg[id].descr.size as int, reg[id].descr.alignment, start, first_fit)
            + reg[id].descr.size > usize::MAX)
}

/// Every entry that is taken before the one at `at` bears the stamp and
/// stands where the walk over its earlier neighbours has it.
pub open spec fn taken_before(
    loose: Seq<(ByteSteps, u32)>,
    ig: Map<u32, Vec<u32>>,
    reg: Map<u32, PlacedJob>,
    stamp: u32,
    start: int,
    first_fit: bool,
    at: int,
) -> bool {
    forall|b: int|
        0 <= b < loose.len() && comes_before(#[trigger] loose[b], loose[at]) ==> stamped(reg, loose[b].1, stamp)
            && walked(loose, ig, reg, start, first_fit, b)
}

/// No job bears the stamp but those of entries taken before the one at
/// `at`.
pub open spec fn none_later(loose: Seq<(ByteSteps, u32)>, reg: Map<u32, PlacedJob>, stamp: u32, at: int) -> bool {
    forall|id: u32| #[trigger]
        stamped(reg, id, stamp) ==> exists|b: int|
            0 <= b < loose.len() && comes_before(#[trigger] loose[b], loose[at]) && loose[b].1 == id
}

/// Squeezing stopped at the entry `at` because its job, placed by its
/// walk like all those taken before it, ends above the limit or where
/// the machine word ends.
pub open spec fn stopped_high(
    loose: Seq<(ByteSteps, u32)>,
    ig: Map<u32, Vec<u32>>,
    reg: Map<u32, PlacedJob>,
    stamp: u32,
    lim: int,
    start: int,
    first_fit: bool,
    at: int,
) -> bool {
    &&& 0 <= at < loose.len()
    &&& taken_before(loose, ig, reg, stamp, start, first_fit, at)
    &&& stamped(reg, loose[at].1, stamp)
    &&& walked(loose, ig, reg, start, first_fit, at)
    &&& end_of(reg[loose[at].1]) > lim || end_of(reg[loose[at].1]) >= usize::MAX
}

/// Squeezing stopped at the entry `at` because its job finds no place
/// within the machine word among the jobs taken before it, which are
/// placed by their walks and are the only ones that bear the stamp.
pub open spec fn stopped_short(
    loose: Seq<(ByteSteps, u32)>,
    ig: Map<u32, Vec<u32>>,
    reg: Map<u32, PlacedJob>,
    stamp: u32,
    start: int,
    first_fit: bool,
    at: int,
) -> bool {
    &&& 0 <= at < loose.len()
    &&& taken_before(loose, ig, reg, stamp, start, first_fit, at)
    &&& none_later(loose, reg, stamp, at)
    &&& finds_no_place(ig, reg, stamp, start, first_fit, loose[at].1)
}

/// Why a round of squeezing gives no makespan: a job is loosely placed
/// twice; or the jobs were placed by their walks up to one that ends
/// above the limit or where the machine word ends; or up to one that
/// finds no place within the machine word.
pub open spec fn gave_up(
    loose: Seq<(ByteSteps, u32)>,
    ig: Map<u32, Vec<u32>>,
    reg: Map<u32, PlacedJob>,
    stamp: u32,
    lim: int,
    start: int,
    first_fit: bool,
) -> bool {
    ||| !loose_ids(loose).no_duplicates()
    ||| exists|at: int| #[trigger] stopped_high(loose, ig, reg, stamp, lim, start, first_fit, at)
    ||| exists|at: int| #[trigger] stopped_short(loose, ig, reg, stamp, start, first_fit, at)
}

/// Entries that are alike stand alike.
pub proof fn lemma_walked_same(
    loose: Seq<(ByteSteps, u32)>,
    ig: Map<u32, Vec<u32>>,
    reg: Map<u32, PlacedJob>,
    start: int,
    first_fit: bool,
    a: int,
    w: int,
)
    requires
        loose[a] == loose[w],
        walked(loose, ig, reg, start, first_fit, a),
    ensures
        walked(loose, ig, reg, start, first_fit, w),
{
    let spans = choose|spans: Seq<(usize, usize, usize)>| #[trigger]
        earlier_spans(loose, ig, reg, a, spans) && reg[loose[a].1].offset == fitted(
            spans,
            reg[loose[a].1].descr.size as int,
            reg[loose[a].1].descr.alignment,
            start,
            first_fit,
        );
    assert(earlier_spans(loose, ig, reg, w, spans)) by {
        assert forall|b: int| below(loose, ig, w, b) == below(loose, ig, a, b) by {}
        assert forall|x: int| 0 <= x < spans.len() implies span_below(loose, ig, reg, w, #[trigger] spans[x]) by {
            assert(span_below(loose, ig, reg, a, spans[x]));
            let b = choose|b: int| #[trigger] below(loose, ig, a, b) && spans[x] == span_key(reg, loose[b].1);
            assert(below(loose, ig, w, b));
        }
    }
}

/// In the middle of squeezing, before or after the job at hand is put in
/// its place, the entries taken before it bear the stamp and stand
/// where their walks have them, and no job else bears the stamp but the
/// job at hand once it is placed.
pub proof fn lemma_taken_before(
    loose: Seq<(ByteSteps, u32)>,
    ig: Map<u32, Vec<u32>>,
    reg0: Map<u32, PlacedJob>,
    before: Map<u32, PlacedJob>,
    reg: Map<u32, PlacedJob>,
    order: Seq<(usize, usize, usize)>,
    done: Seq<u32>,
    ats: Seq<int>,
    at: int,
    nbs: Seq<(usize, usize, usize)>,
    stamp: u32,
    start: int,
    first_fit: bool,
    placed: PlacedJob,
)
    requires
        mid_squeeze(loose, ig, reg0, before, order, done, at, nbs, stamp),
        !stamped(before, loose[at].1, stamp),
        reg == before || reg == before.insert(loose[at].1, placed),
        ats.len() == done.len(),
        forall|q: int|
            0 <= q < ats.len() ==> 0 <= #[trigger] ats[q] < loose.len() && order[q] == (
                loose[ats[q]].0,
                loose[ats[q]].1 as usize,
                0usize,
            ),
        forall|q: int| 0 <= q < ats.len() ==> walked(loose, ig, reg, start, first_fit, #[trigger] ats[q]),
    ensures
        taken_before(loose, ig, reg, stamp, start, first_fit, at),
        reg == before ==> none_later(loose, reg, stamp, at),
{
    let k = done.len() as int;
    let id = loose[at].1;
    assert forall|b: int| 0 <= b < loose.len() && comes_before(#[trigger] loose[b], loose[at]) implies stamped(
        reg,
        loose[b].1,
        stamp,
    ) && walked(loose, ig, reg, start, first_fit, b) by {
        let p = lemma_earlier_taken(loose, ig, reg0, before, order, done, at, nbs, stamp, k, b);
        assert(loose[ats[p]] == loose[b]);
        lemma_walked_same(loose, ig, reg, start, first_fit, ats[p], b);
        assert(loose[b].1 != id);
    }
    if reg == before {
        assert forall|other: u32| #[trigger] stamped(reg, other, stamp) implies exists|b: int|
            0 <= b < loose.len() && comes_before(#[trigger] loose[b], loose[at]) && loose[b].1 == other by {
            assert(done.contains(other));
            let p = choose|p: int| 0 <= p < done.len() && done[p] == other;
            assert(key_le(order[p], order[k]));
            let b = ats[p];
            assert(loose[b].1 == other);
            assert(comes_before(loose[b], loose[at]));
        }
    }
}

/// What a round of squeezing leaves behind when it runs to its end: the
/// jobs of `ids`, each once, are the ones that bear the stamp; no two of
/// them that are neighbours share an address; each lies below `makespan`
/// at an offset where it may stand; and one of them reaches `makespan`.
pub open spec fn squeezed(
    ig: Map<u32, Vec<u32>>,
    reg: Map<u32, PlacedJob>,
    ids: Seq<u32>,
    stamp: u32,
    start: int,
    makespan: int,
) -> bool {
    &&& ids.no_duplicates()
    &&& forall|id: u32| stamped(reg, id, stamp) <==> ids.contains(id)
    &&& squeezed_apart(ig, reg, stamp)
    &&& forall|id: u32| #[trigger] stamped(reg, id, stamp) ==> end_of(reg[id]) <= makespan
    &&& forall|id: u32| #[trigger]
        stamped(reg, id, stamp) ==> stands(start, reg[id].offset as int, reg[id].descr.alignment)
            || reg[id].offset == 0 || exists|i: int|
            0 <= i < ig[id].len() && stamped(reg, #[trigger] ig[id][i], stamp) && reg[id].offset
                == end_of(reg[ig[id][i]])
    &&& makespan == 0 || exists|id: u32| #[trigger] stamped(reg, id, stamp) && end_of(reg[id]) == makespan
}

/// No job of the registry bears the stamp.
pub open spec fn unstamped(reg: Map<u32, PlacedJob>, stamp: u32) -> bool {
    forall|id: u32| !#[trigger] stamped(reg, id, stamp)
}

/// The keys by which the loosely placed jobs are taken: offset, then
/// identifier.
pub open spec fn keys_of(loose: Seq<(ByteSteps, u32)>) -> Seq<(usize, usize, usize)> {
    Seq::new(loose.len(), |q: int| (loose[q].0, loose[q].1 as usize, 0usize))
}

/// `order` holds the keys of the loosely placed jobs, the least first.
pub open spec fn keys_in_order(loose: Seq<(ByteSteps, u32)>, order: Seq<(usize, usize, usize)>) -> bool {
    &&& order.len() == loose.len()
    &&& order.to_multiset() == keys_of(loose).to_multiset()
    &&& forall|i: int, j: int| 0 <= i <= j < order.len() ==> key_le(#[trigger] order[i], #[trigger] order[j])
}

/// One step of squeezing: the job `id`, which does not bear the stamp,
/// is put where the walk over its neighbours that bear it ends, and
/// gets the stamp.
pub open spec fn squeeze_step(
    ig: Map<u32, Vec<u32>>,
    before: Map<u32, PlacedJob>,
    after: Map<u32, PlacedJob>,
    stamp: u32,
    start: int,
    first_fit: bool,
    id: u32,
) -> bool {
    &&& before.contains_key(id)
    &&& !stamped(before, id, stamp)
    &&& exists|nbs: Seq<(usize, usize, usize)>| #[trigger]
        spans_of(ig, before, stamp, id, nbs) && after.contains_key(id) && after == before.insert(id, after[id])
            && after[id].descr == before[id].descr && after[id].times_squeezed == stamp && after[id].offset
            == fitted(nbs, before[id].descr.size as int, before[id].descr.alignment, start, first_fit)
}

/// The step `q` of a run of squeezing takes the job of the `q`th key
/// from one registry of the run to the next.
pub open spec fn squeeze_at(
    order: Seq<(usize, usize, usize)>,
    ig: Map<u32, Vec<u32>>,
    trace: Seq<Map<u32, PlacedJob>>,
    stamp: u32,
    start: int,
    first_fit: bool,
    q: int,
) -> bool {
    squeeze_step(ig, trace[q], trace[q + 1], stamp, start, first_fit, order[q].1 as u32)
}

/// Where the job that the step `q` of a run placed ends.
pub open spec fn end_at(order: Seq<(usize, usize, usize)>, trace: Seq<Map<u32, PlacedJob>>, q: int) -> int {
    end_of(trace[q + 1][order[q].1 as u32])
}

/// `m` is where the highest of the jobs that the run placed ends; zero
/// where it placed none.
pub open spec fn run_tops(order: Seq<(usize, usize, usize)>, trace: Seq<Map<u32, PlacedJob>>, m: int) -> bool {
    &&& forall|q: int| 0 <= q < trace.len() - 1 ==> #[trigger] end_at(order, trace, q) <= m
    &&& trace.len() == 1 ==> m == 0
    &&& trace.len() > 1 ==> exists|q: int| 0 <= q < trace.len() - 1 && #[trigger] end_at(order, trace, q) == m
}

/// Why a run of squeezing stopped without a makespan: the job placed
/// last ends above the limit; or the run is through and its highest job
/// ends where the machine word ends; or the job that is next bears the
/// stamp already or finds no place within the machine word.
pub open spec fn run_stopped(
    order: Seq<(usize, usize, usize)>,
    ig: Map<u32, Vec<u32>>,
    trace: Seq<Map<u32, PlacedJob>>,
    stamp: u32,
    lim: int,
    start: int,
    first_fit: bool,
) -> bool {
    let n = trace.len() - 1;
    ||| n > 0 && end_at(order, trace, n - 1) > lim
    ||| n == order.len() && run_tops(order, trace, usize::MAX as int)
    ||| n < order.len() && (stamped(trace[n], order[n].1 as u32, stamp) || finds_no_place(
        ig,
        trace[n],
        stamp,
        start,
        first_fit,
        order[n].1 as u32,
    ))
}

/// A run of squeezing: the registries `trace` lead, step by step in the
/// order of the keys, from the one before to the one after. A makespan
/// below `usize::MAX` comes of a run through all the jobs, is within
/// the limit, and is where the highest of them ends.
pub open spec fn squeeze_run(
    loose: Seq<(ByteSteps, u32)>,
    ig: Map<u32, Vec<u32>>,
    reg0: Map<u32, PlacedJob>,
    reg: Map<u32, PlacedJob>,
    stamp: u32,
    lim: int,
    start: int,
    first_fit: bool,
    makespan: usize,
    order: Seq<(usize, usize, usize)>,
    trace: Seq<Map<u32, PlacedJob>>,
) -> bool {
    &&& keys_in_order(loose, order)
    &&& 0 < trace.len() <= order.len() + 1
    &&& trace[0] == reg0
    &&& trace[trace.len() - 1] == reg
    &&& forall|q: int| 0 <= q < trace.len() - 1 ==> #[trigger] squeeze_at(order, ig, trace, stamp, start, first_fit, q)
    &&& if makespan < usize::MAX {
        trace.len() == order.len() + 1 && makespan <= lim && run_tops(order, trace, makespan as int)
    } else {
        run_stopped(order, ig, trace, stamp, lim, start, first_fit)
    }
}

/// One step more of a run of squeezing: the steps so far stay steps of
/// the longer run, and the highest end is the higher of what it was and
/// the end of the job that the step placed.
pub proof fn lemma_run_step(
    order: Seq<(usize, usize, usize)>,
    ig: Map<u32, Vec<u32>>,
    trace0: Seq<Map<u32, PlacedJob>>,
    after: Map<u32, PlacedJob>,
    stamp: u32,
    start: int,
    first_fit: bool,
    id: u32,
    old_max: int,
    new_max: int,
)
    requires
        0 < trace0.len() <= order.len(),
        order[trace0.len() - 1].1 as u32 == id,
        forall|q: int|
            0 <= q < trace0.len() - 1 ==> #[trigger] squeeze_at(order, ig, trace0, stamp, start, first_fit, q),
        forall|q: int| 0 <= q < trace0.len() - 1 ==> #[trigger] end_at(order, trace0, q) <= old_max,
        trace0.len() == 1 ==> old_max == 0,
        trace0.len() > 1 ==> exists|q: int| 0 <= q < trace0.len() - 1 && #[trigger] end_at(order, trace0, q) == old_max,
        squeeze_step(ig, trace0[trace0.len() - 1], after, stamp, start, first_fit, id),
        new_max == if end_of(after[id]) > old_max {
            end_of(after[id])
        } else {
            old_max
        },
    ensures
        forall|q: int|
            0 <= q < trace0.len() ==> #[trigger] squeeze_at(
                order,
                ig,
                trace0.push(after),
                stamp,
                start,
                first_fit,
                q,
            ),
        forall|q: int| 0 <= q < trace0.len() ==> #[trigger] end_at(order, trace0.push(after), q) <= new_max,
        exists|q: int| 0 <= q < trace0.len() && #[trigger] end_at(order, trace0.push(after), q) == new_max,
        end_at(order, trace0.push(after), trace0.len() - 1) == end_of(after[id]),
{
    let trace = trace0.push(after);
    let k = trace0.len() - 1;
    assert(trace[k] == trace0[k] && trace[k + 1] == after);
    assert forall|q: int| 0 <= q < trace0.len() implies #[trigger] squeeze_at(
        order,
        ig,
        trace,
        stamp,
        start,
        first_fit,
        q,
    ) by {
        if q < k {
            assert(squeeze_at(order, ig, trace0, stamp, start, first_fit, q));
            assert(trace[q] == trace0[q] && trace[q + 1] == trace0[q + 1]);
        }
    }
    assert forall|q: int| 0 <= q < trace0.len() implies #[trigger] end_at(order, trace, q) <= new_max by {
        if q < k {
            assert(trace[q + 1] == trace0[q + 1]);
            assert(end_at(order, trace0, q) <= old_max);
        }
    }
    if end_of(after[id]) > old_max || k == 0 {
        assert(end_at(order, trace, k) == new_max);
    } else {
        let q = choose|q: int| 0 <= q < trace0.len() - 1 && #[trigger] end_at(order, trace0, q) == old_max;
        assert(trace[q + 1] == trace0[q + 1]);
        assert(end_at(order, trace, q) == new_max);
    }
}

/// What stands at the end of a round of squeezing that went through all
/// the entries.
proof fn lemma_squeeze_done(
    loose: Seq<(ByteSteps, u32)>,
    ig: Map<u32, Vec<u32>>,
    reg0: Map<u32, PlacedJob>,
    reg: Map<u32, PlacedJob>,
    unsorted: Seq<(usize, usize, usize)>,
    order: Seq<(usize, usize, usize)>,
    done: Seq<u32>,
    ats: Seq<int>,
    stamp: u32,
    lim: int,
    start: int,
    first_fit: bool,
    max_address: usize,
    sure: bool,
)
    requires
        order.len() == loose.len(),
        unsorted.len() == loose.len(),
        forall|q: int|
            0 <= q < unsorted.len() ==> #[trigger] unsorted[q] == (loose[q].0, loose[q].1 as usize, 0usize),
        forall|x: (usize, usize, usize)| unsorted.contains(x) <==> order.contains(x),
        order.to_multiset() == unsorted.to_multiset(),
        forall|q: int|
            0 <= q < loose.len() ==> order.contains((loose[q].0, (#[trigger] loose[q]).1 as usize, 0usize)),
        ats.len() == order.len(),
        forall|q: int|
            0 <= q < ats.len() ==> 0 <= #[trigger] ats[q] < loose.len() && order[q] == (
                loose[ats[q]].0,
                loose[ats[q]].1 as usize,
                0usize,
            ),
        forall|q: int| 0 <= q < ats.len() ==> walked(loose, ig, reg, start, first_fit, #[trigger] ats[q]),
        same_jobs(reg0, reg),
        done.len() == order.len(),
        forall|q: int| 0 <= q < done.len() ==> #[trigger] done[q] == order[q].1,
        done.no_duplicates(),
        sure == (stacks(loose, ig, reg0) && loose_ids(loose).no_duplicates() && ends_within(loose, reg0, lim)),
        sure ==> forall|q: int| 0 <= q < done.len() ==> reg[done[q]].offset == (#[trigger] order[q]).0,
        forall|id: u32| stamped(reg, id, stamp) <==> done.contains(id),
        max_address <= lim,
        squeezed_apart(ig, reg, stamp),
        forall|id: u32| #[trigger] stamped(reg, id, stamp) ==> end_of(reg[id]) <= max_address,
        forall|id: u32| #[trigger]
            stamped(reg, id, stamp) ==> stands(start, reg[id].offset as int, reg[id].descr.alignment)
                || reg[id].offset == 0 || exists|i: int|
                0 <= i < ig[id].len() && stamped(reg, #[trigger] ig[id][i], stamp) && reg[id].offset == end_of(
                    reg[ig[id][i]],
                ),
        max_address == 0 || exists|id: u32| #[trigger] stamped(reg, id, stamp) && end_of(reg[id]) == max_address,
    ensures
        max_address < usize::MAX ==> squeezed(ig, reg, loose_ids(loose), stamp, start, max_address as int),
        forall|w: int| 0 <= w < loose.len() ==> #[trigger] walked(loose, ig, reg, start, first_fit, w),
        max_address == usize::MAX ==> gave_up(loose, ig, reg, stamp, lim, start, first_fit),
        sure ==> kept_stack(loose, reg0, reg, max_address as int),
{
    if sure {
        assert forall|w: int| 0 <= w < loose.len() implies reg[(#[trigger] loose[w]).1].offset
            == loose[w].0 && loose_end(loose, reg0, w) == end_of(reg[loose[w].1]) && stamped(
            reg,
            loose[w].1,
            stamp,
        ) by {
            assert(unsorted.contains(unsorted[w]));
            let q = choose|q: int| 0 <= q < order.len() && order[q] == unsorted[w];
            assert(done[q] == loose[w].1);
            assert(reg[done[q]].offset == order[q].0);
            assert(done.contains(done[q]));
        }
        assert(ends_within(loose, reg0, max_address as int)) by {
            assert forall|w: int| 0 <= w < loose.len() implies #[trigger] loose_end(loose, reg0, w)
                <= max_address by {
                assert(reg[loose[w].1].offset == loose[w].0);
            }
        }
        if loose.len() > 0 {
            assert(reg0[loose[0].1].descr.size > 0);
            assert(loose_end(loose, reg0, 0) <= max_address);
            let top = choose|top: u32| #[trigger] stamped(reg, top, stamp) && end_of(reg[top]) == max_address;
            assert(done.contains(top));
            let q = choose|q: int| 0 <= q < done.len() && done[q] == top;
            assert(order.contains(order[q]));
            let w = choose|w: int| 0 <= w < unsorted.len() && unsorted[w] == order[q];
            assert(unsorted[w] == (loose[w].0, loose[w].1 as usize, 0usize));
            assert(reg[loose[w].1].offset == loose[w].0);
            assert(loose_end(loose, reg0, w) == max_address);
        } else {
            if max_address != 0 {
                let top = choose|top: u32| #[trigger] stamped(reg, top, stamp) && end_of(reg[top]) == max_address;
                assert(done.contains(top));
            }
        }
        assert(kept_stack(loose, reg0, reg, max_address as int));
    }
    // The jobs that were taken are the loosely placed ones.
    let ids = loose_ids(loose);
    assert forall|id: u32| done.contains(id) <==> ids.contains(id) by {
        if done.contains(id) {
            let q = choose|q: int| 0 <= q < done.len() && done[q] == id;
            assert(order.contains(order[q]));
            let w = choose|w: int| 0 <= w < unsorted.len() && unsorted[w] == order[q];
            assert(ids[w] == id);
        }
        if ids.contains(id) {
            let w = choose|w: int| 0 <= w < ids.len() && ids[w] == id;
            assert(unsorted.contains(unsorted[w]));
            let q = choose|q: int| 0 <= q < order.len() && order[q] == unsorted[w];
            assert(done[q] == id);
        }
    }
    assert forall|w: int| 0 <= w < loose.len() implies #[trigger] walked(
        loose,
        ig,
        reg,
        start,
        first_fit,
        w,
    ) by {
        assert(order.contains((loose[w].0, loose[w].1 as usize, 0usize)));
        let q = choose|q: int|
            0 <= q < order.len() && order[q] == (loose[w].0, loose[w].1 as usize, 0usize);
        let a = ats[q];
        assert(loose[a] == loose[w]);
        assert(walked(loose, ig, reg, start, first_fit, a));
        let spans = choose|spans: Seq<(usize, usize, usize)>| #[trigger]
            earlier_spans(loose, ig, reg, a, spans) && reg[loose[a].1].offset == fitted(
                spans,
                reg[loose[a].1].descr.size as int,
                reg[loose[a].1].descr.alignment,
                start,
                first_fit,
            );
        assert(earlier_spans(loose, ig, reg, w, spans)) by {
            assert forall|b: int| below(loose, ig, w, b) == below(loose, ig, a, b) by {}
            assert forall|x: int| 0 <= x < spans.len() implies span_below(
                loose,
                ig,
                reg,
                w,
                #[trigger] spans[x],
            ) by {
                assert(span_below(loose, ig, reg, a, spans[x]));
                let b = choose|b: int| #[trigger]
                    below(loose, ig, a, b) && spans[x] == span_key(reg, loose[b].1);
                assert(below(loose, ig, w, b));
            }
        }
    }
    if max_address == usize::MAX {
        let top = choose|top: u32| #[trigger] stamped(reg, top, stamp) && end_of(reg[top]) == max_address;
        assert(ids.contains(top));
        let w = choose|w: int| 0 <= w < ids.len() && ids[w] == top;
        assert(loose[w].1 == top);
        assert forall|b: int| 0 <= b < loose.len() implies stamped(reg, (#[trigger] loose[b]).1, stamp) by {
            assert(ids[b] == loose[b].1);
            assert(ids.contains(loose[b].1));
        }
        assert(stopped_high(
            loose,
            ig,
            reg,
            stamp,
            lim,
            start,
            first_fit,
            w,
        ));
    }
    assert(ids.no_duplicates()) by {
        assert forall|a: int, b: int|
            0 <= a < ids.len() && 0 <= b < ids.len() && a != b implies ids[a] != ids[b] by {
            if ids[a] == ids[b] {
                // Equal identifiers with equal offsets would be one key
                // twice, with different ones two keys of one job.
                crate::helpe::lemma_positions_of(unsorted, order, a, b);
                let qa = choose|qa: int| 0 <= qa < order.len() && order[qa] == unsorted[a];
                let qb = choose|qb: int|
                    0 <= qb < order.len() && qb != qa && order[qb] == unsorted[b];
                assert(done[qa] == done[qb]);
            }
        }
    }
}

/// Squeezes the loosely placed jobs together, lowest loose offset first.
/// Each job goes into a gap between those of its neighbours that bear
/// the stamp of the round, which are those squeezed before it and any
/// that bore the stamp beforehand: the first gap that takes it, or with
/// `first_fit` off the smallest; where no gap takes it, it goes on top of
/// them. Returns the makespan, or `usize::MAX` once a job would reach
/// above `makespan_lim`, or comes up that bears the stamp already.
#[verifier::rlimit(40)]
pub fn do_best_fit(
    loose: LoosePlacement,
    ig: &InterferenceGraph,
    reg: &mut PlacedJobRegistry,
    iters_done: u32,
    makespan_lim: ByteSteps,
    first_fit: bool,
    start_addr: ByteSteps,
) -> (makespan: ByteSteps)
    requires
        iters_done < u32::MAX,
        graph_fits(ig@, old(reg)@),
        registry_ok(old(reg)@),
        forall|k: int| 0 <= k < loose.len() ==> old(reg)@.contains_key((#[trigger] loose[k]).1),
        forall|id: u32| #[trigger]
            stamped(old(reg)@, id, next_stamp(iters_done)) ==> end_of(old(reg)@[id]) <= usize::MAX,
    ensures
        exists|order: Seq<(usize, usize, usize)>, trace: Seq<Map<u32, PlacedJob>>| #[trigger]
            squeeze_run(
                loose@,
                ig@,
                old(reg)@,
                final(reg)@,
                next_stamp(iters_done),
                makespan_lim as int,
                start_addr as int,
                first_fit,
                makespan,
                order,
                trace,
            ),
        same_jobs(old(reg)@, final(reg)@),
        forall|id: u32| #[trigger]
            final(reg)@.contains_key(id) ==> final(reg)@[id] == old(reg)@[id]
                || final(reg)@[id].times_squeezed == next_stamp(iters_done),
        unstamped(old(reg)@, next_stamp(iters_done)) && makespan < usize::MAX ==> makespan <= makespan_lim
            && squeezed(
            ig@,
            final(reg)@,
            loose_ids(loose@),
            next_stamp(iters_done),
            start_addr as int,
            makespan as int,
        ),
        unstamped(old(reg)@, next_stamp(iters_done)) && makespan < usize::MAX ==> forall|w: int|
            0 <= w < loose.len() ==> #[trigger] walked(
                loose@,
                ig@,
                final(reg)@,
                start_addr as int,
                first_fit,
                w,
            ),
        unstamped(old(reg)@, next_stamp(iters_done)) && makespan == usize::MAX ==> gave_up(
            loose@,
            ig@,
            final(reg)@,
            next_stamp(iters_done),
            makespan_lim as int,
            start_addr as int,
            first_fit,
        ),
        unstamped(old(reg)@, next_stamp(iters_done)) && stacks(loose@, ig@, old(reg)@) && loose_ids(
            loose@,
        ).no_duplicates() && ends_within(loose@, old(reg)@, makespan_lim as int) ==> kept_stack(
            loose@,
            old(reg)@,
            final(reg)@,
            makespan as int,
        ),
{
    let stamp: u32 = iters_done + 1;
    let ghost reg0 = reg@;
    let ghost fresh = unstamped(reg0, stamp);
    let ghost sure = fresh && stacks(loose@, ig@, reg0) && loose_ids(loose@).no_duplicates() && ends_within(
        loose@,
        reg0,
        makespan_lim as int,
    );
    proof {
        assert(stamp == next_stamp(iters_done));
    }
    // The order in which the jobs are taken: by loose offset.
    let mut keys: Vec<(usize, usize, usize)> = Vec::new();
    let mut k: usize = 0;
    while k < loose.len()
        invariant
            k <= loose.len(),
            keys.len() == k,
            forall|q: int| 0 <= q < k ==> #[trigger] keys[q] == (loose[q].0, loose[q].1 as usize, 0usize),
        decreases loose.len() - k,
    {
        keys.push((loose[k].0, loose[k].1 as usize, 0));
        k += 1;
    }
    let ghost unsorted = keys@;
    let order = sorted_unstable(keys);
    proof {
        lemma_same_elements(unsorted, order@);
        assert(unsorted =~= keys_of(loose@));
        assert(keys_in_order(loose@, order@));
    }
    proof {
        assert forall|q: int| 0 <= q < loose.len() implies order@.contains(
            (loose[q].0, (#[trigger] loose[q]).1 as usize, 0usize),
        ) by {
            assert(unsorted.contains(unsorted[q]));
        }
        assert forall|p: int| 0 <= p < order.len() implies exists|q: int|
            0 <= q < loose.len() && #[trigger] order[p] == (
                loose[q].0,
                (#[trigger] loose[q]).1 as usize,
                0usize,
            ) by {
            let x = order@[p];
            assert(order@.contains(x));
            assert(unsorted.contains(x));
            let q = choose|q: int| 0 <= q < unsorted.len() && unsorted[q] == x;
            assert(unsorted[q] == (loose[q].0, loose[q].1 as usize, 0usize));
        }
    }
    let mut max_address: usize = 0;
    let ghost mut done: Seq<u32> = Seq::empty();
    let ghost mut ats: Seq<int> = Seq::empty();
    let ghost mut trace: Seq<Map<u32, PlacedJob>> = seq![reg0];
    let mut k: usize = 0;
    while k < order.len()
        invariant
            k <= order.len(),
            fresh == unstamped(reg0, stamp),
            stamp == next_stamp(iters_done),
            keys_in_order(loose@, order@),
            trace.len() == k + 1,
            trace[0] == reg0,
            trace[k as int] == reg@,
            forall|q: int|
                0 <= q < k ==> #[trigger] squeeze_at(order@, ig@, trace, stamp, start_addr as int, first_fit, q),
            forall|q: int| 0 <= q < k ==> #[trigger] end_at(order@, trace, q) <= max_address,
            k == 0 ==> max_address == 0,
            k > 0 ==> exists|q: int| 0 <= q < k && #[trigger] end_at(order@, trace, q) == max_address,
            forall|id: u32| #[trigger] stamped(reg@, id, stamp) ==> end_of(reg@[id]) <= usize::MAX,
            forall|id: u32| done.contains(id) ==> #[trigger] stamped(reg@, id, stamp),
            forall|q: int|
                0 <= q < loose.len() ==> order@.contains((loose[q].0, (#[trigger] loose[q]).1 as usize, 0usize)),
            forall|p: int|
                0 <= p < order.len() ==> exists|q: int|
                    0 <= q < loose.len() && #[trigger] order[p] == (
                        loose[q].0,
                        (#[trigger] loose[q]).1 as usize,
                        0usize,
                    ),
            ats.len() == k,
            forall|q: int|
                0 <= q < k ==> 0 <= #[trigger] ats[q] < loose.len() && order[q] == (
                    loose[ats[q]].0,
                    loose[ats[q]].1 as usize,
                    0usize,
                ),
            fresh ==> forall|q: int|
                0 <= q < k ==> walked(loose@, ig@, reg@, start_addr as int, first_fit, #[trigger] ats[q]),
            stamp == iters_done + 1,
            reg0 == old(reg)@,
            graph_fits(ig@, reg0),
            registry_ok(reg0),
            same_jobs(reg0, reg@),
            forall|id: u32| #[trigger]
                reg@.contains_key(id) ==> reg@[id] == reg0[id] || reg@[id].times_squeezed == stamp,
            order.len() == loose.len(),
            unsorted.len() == loose.len(),
            forall|q: int|
                0 <= q < unsorted.len() ==> #[trigger] unsorted[q] == (
                    loose[q].0,
                    loose[q].1 as usize,
                    0usize,
                ),
            forall|x: (usize, usize, usize)| unsorted.contains(x) <==> order@.contains(x),
            forall|q: int| 0 <= q < loose.len() ==> reg0.contains_key((#[trigger] loose[q]).1),
            done.len() == k,
            forall|q: int| 0 <= q < k ==> #[trigger] done[q] == order[q].1,
            done.no_duplicates(),
            forall|i: int, j: int|
                0 <= i <= j < order.len() ==> key_le(#[trigger] order[i], #[trigger] order[j]),
            sure == (fresh && stacks(loose@, ig@, reg0) && loose_ids(loose@).no_duplicates() && ends_within(
                loose@,
                reg0,
                makespan_lim as int,
            )),
            sure ==> forall|q: int| 0 <= q < k ==> reg@[done[q]].offset == (#[trigger] order[q]).0,
            order@.to_multiset() == unsorted.to_multiset(),
            fresh ==> forall|id: u32| stamped(reg@, id, stamp) <==> done.contains(id),
            max_address <= makespan_lim,
            fresh ==> squeezed_apart(ig@, reg@, stamp),
            fresh ==> forall|id: u32| #[trigger] stamped(reg@, id, stamp) ==> end_of(reg@[id]) <= max_address,
            fresh ==> forall|id: u32| #[trigger]
                stamped(reg@, id, stamp) ==> stands(
                    start_addr as int,
                    reg@[id].offset as int,
                    reg@[id].descr.alignment,
                ) || reg@[id].offset == 0 || exists|i: int|
                    0 <= i < ig@[id].len() && stamped(reg@, #[trigger] ig@[id][i], stamp)
                        && reg@[id].offset == end_of(reg@[ig@[id][i]]),
            fresh ==> max_address == 0 || exists|id: u32| #[trigger]
                stamped(reg@, id, stamp) && end_of(reg@[id]) == max_address,
        decreases order.len() - k,
    {
        let id_key = order[k].1;
        proof {
            let x = order@[k as int];
            assert(order@.contains(x));
            assert(unsorted.contains(x));
            let w = choose|w: int| 0 <= w < unsorted.len() && unsorted[w] == x;
            assert(unsorted[w] == (loose[w].0, loose[w].1 as usize, 0usize));
            assert(reg0.contains_key(loose[w].1));
            assert(id_key == loose[w].1);
        }
        let id = id_key as u32;
        let ghost before = reg@;
        let ghost at = choose|w: int| 0 <= w < unsorted.len() && unsorted[w] == order@[k as int];
        let (descr, seen) = match lookup(reg, id) {
            Some(pj) => (share(&pj.descr), pj.times_squeezed == stamp),
            None => { return usize::MAX; },
        };
        if seen {
            // The job was met before: the loose placement is no placement.
            proof {
                assert(stamped(trace[k as int], order@[k as int].1 as u32, stamp));
                assert(squeeze_run(
                    loose@,
                    ig@,
                    reg0,
                    reg@,
                    stamp,
                    makespan_lim as int,
                    start_addr as int,
                    first_fit,
                    usize::MAX,
                    order@,
                    trace,
                ));
            }
            proof {
                if fresh {
                assert(done.contains(id));
                let p = choose|p: int| 0 <= p < done.len() && done[p] == id;
                crate::helpe::lemma_positions_of(order@, unsorted, p, k as int);
                let (qa, qb) = choose|qa: int, qb: int|
                    0 <= qa < unsorted.len() && 0 <= qb < unsorted.len() && qa != qb && unsorted[qa]
                        == order@[p] && unsorted[qb] == order@[k as int];
                assert(loose_ids(loose@)[qa] == loose_ids(loose@)[qb]);
                assert(!loose_ids(loose@).no_duplicates());
                }
            }
            return usize::MAX;
        }
        let to_squeeze = PlacedJob { descr, offset: 0, times_squeezed: stamp };
        let ns = match neighbours(ig, id) {
            Some(ns) => ns,
            None => { return usize::MAX; },
        };
        let spans = gather(ns, reg, stamp);
        let ghost unsorted_spans = spans@;
        let nbs = sorted_unstable(spans);
        proof {
            lemma_same_elements(unsorted_spans, nbs@);
            assert forall|q: int| 0 <= q < nbs.len() implies (#[trigger] nbs[q]).0 <= nbs[q].1 by {
                assert(nbs@.contains(nbs[q]));
                assert(unsorted_spans.contains(nbs[q]));
                let w = choose|w: int| 0 <= w < unsorted_spans.len() && unsorted_spans[w] == nbs[q];
                assert(is_span_among(reg@, ns@, ns.len() as int, stamp, unsorted_spans[w]));
            }
        }
        proof {
            assert(unsorted[at] == (loose[at].0, loose[at].1 as usize, 0usize));
            assert(spans_of(ig@, before, stamp, id, nbs@)) by {
                assert forall|i: int|
                    0 <= i < ig@[id].len() && stamped(before, #[trigger] ig@[id][i], stamp) implies nbs@.contains(
                    span_key(before, ig@[id][i]),
                ) by {
                    assert(unsorted_spans.contains(span_key(before, ns[i])));
                }
                assert forall|q: int| 0 <= q < nbs.len() implies is_span_among(
                    before,
                    ig@[id]@,
                    ig@[id].len() as int,
                    stamp,
                    #[trigger] nbs[q],
                ) by {
                    assert(nbs@.contains(nbs[q]));
                    let w = choose|w: int| 0 <= w < unsorted_spans.len() && unsorted_spans[w] == nbs[q];
                    assert(is_span_among(before, ns@, ns.len() as int, stamp, unsorted_spans[w]));
                }
            }
            assert(loose_ids(loose@)[at] == id);
            if fresh {
                assert(mid_squeeze(loose@, ig@, reg0, before, order@, done, at, nbs@, stamp));
            }
            if sure {
                assert(mid_stack(loose@, ig@, reg0, before, order@, done, at, nbs@, stamp));
                lemma_fit_on_stack(loose@, ig@, reg0, before, order@, done, at, nbs@, stamp, start_addr as int, first_fit);
            }
        }
        let offset = match fit(&nbs, &to_squeeze, start_addr, first_fit) {
            Some(o) => o,
            None => {
                proof {
                    assert(finds_no_place(ig@, before, stamp, start_addr as int, first_fit, id));
                    assert(squeeze_run(
                        loose@,
                        ig@,
                        reg0,
                        reg@,
                        stamp,
                        makespan_lim as int,
                        start_addr as int,
                        first_fit,
                        usize::MAX,
                        order@,
                        trace,
                    ));
                }
                proof {
                    if fresh {
                    lemma_taken_before(
                        loose@,
                        ig@,
                        reg0,
                        before,
                        before,
                        order@,
                        done,
                        ats,
                        at,
                        nbs@,
                        stamp,
                        start_addr as int,
                        first_fit,
                        to_squeeze,
                    );
                    assert(stopped_short(loose@, ig@, before, stamp, start_addr as int, first_fit, at));
                    }
                }
                return usize::MAX;
            },
        };
        proof {
            if sure {
                assert(offset == loose[at].0);
                assert(loose_end(loose@, reg0, at) <= makespan_lim);
            }
        }
        let cand_makespan = match offset.checked_add(to_squeeze.descr.size) {
            Some(c) => c,
            None => {
                proof {
                    assert(finds_no_place(ig@, before, stamp, start_addr as int, first_fit, id));
                    assert(squeeze_run(
                        loose@,
                        ig@,
                        reg0,
                        reg@,
                        stamp,
                        makespan_lim as int,
                        start_addr as int,
                        first_fit,
                        usize::MAX,
                        order@,
                        trace,
                    ));
                }
                proof {
                    if fresh {
                    lemma_taken_before(
                        loose@,
                        ig@,
                        reg0,
                        before,
                        before,
                        order@,
                        done,
                        ats,
                        at,
                        nbs@,
                        stamp,
                        start_addr as int,
                        first_fit,
                        to_squeeze,
                    );
                    assert(stopped_short(loose@, ig@, before, stamp, start_addr as int, first_fit, at));
                    }
                }
                return usize::MAX;
            },
        };
        let placed = PlacedJob { descr: to_squeeze.descr, offset, times_squeezed: stamp };
        record(reg, id, placed);
        let ghost ats0 = ats;
        let ghost trace0 = trace;
        proof {
            assert(reg@ == before.insert(id, placed));
            assert(squeeze_step(ig@, before, reg@, stamp, start_addr as int, first_fit, id)) by {
                assert(spans_of(ig@, before, stamp, id, nbs@));
                assert(reg@[id] == placed);
            }
            lemma_run_step(
                order@,
                ig@,
                trace0,
                reg@,
                stamp,
                start_addr as int,
                first_fit,
                id,
                max_address as int,
                if cand_makespan > max_address {
                    cand_makespan as int
                } else {
                    max_address as int
                },
            );
            trace = trace.push(reg@);
            assert forall|other: u32| #[trigger] stamped(reg@, other, stamp) implies end_of(reg@[other])
                <= usize::MAX by {
                if other != id {
                    assert(stamped(before, other, stamp));
                }
            }
            assert forall|other: u32| done.push(id).contains(other) implies #[trigger] stamped(
                reg@,
                other,
                stamp,
            ) by {
                if other != id {
                    let w = choose|w: int| 0 <= w < done.push(id).len() && done.push(id)[w] == other;
                    assert(done[w] == other);
                    assert(done.contains(other));
                    assert(stamped(before, other, stamp));
                }
            }
        }
        proof {
            if fresh {
            lemma_walked_step(
                loose@,
                ig@,
                reg0,
                before,
                reg@,
                order@,
                done,
                ats,
                at,
                nbs@,
                stamp,
                start_addr as int,
                first_fit,
                placed,
            );
            }
            ats = ats.push(at);
        }
        proof {
            assert(reg@ == before.insert(id, placed));
            assert(reg@.dom() =~= before.dom());
            assert(same_jobs(reg0, reg@));
            assert forall|other: u32| #[trigger] reg@.contains_key(other) implies reg@[other]
                == reg0[other] || reg@[other].times_squeezed == stamp by {
                if other != id {
                    assert(before.contains_key(other));
                }
            }
        }
        if cand_makespan > max_address {
            max_address = cand_makespan;
            if max_address > makespan_lim {
                proof {
                    assert(end_at(order@, trace, k as int) > makespan_lim);
                    assert(squeeze_run(
                        loose@,
                        ig@,
                        reg0,
                        reg@,
                        stamp,
                        makespan_lim as int,
                        start_addr as int,
                        first_fit,
                        usize::MAX,
                        order@,
                        trace,
                    ));
                }
                proof {
                    if fresh {
                    assert(stamped(reg@, id, stamp) && end_of(reg@[id]) > makespan_lim);
                    assert forall|q: int| 0 <= q < ats0.len() implies walked(
                        loose@,
                        ig@,
                        reg@,
                        start_addr as int,
                        first_fit,
                        #[trigger] ats0[q],
                    ) by {
                        assert(ats[q] == ats0[q]);
                    }
                    assert(ats[ats0.len() as int] == at);
                    lemma_taken_before(
                        loose@,
                        ig@,
                        reg0,
                        before,
                        reg@,
                        order@,
                        done,
                        ats0,
                        at,
                        nbs@,
                        stamp,
                        start_addr as int,
                        first_fit,
                        placed,
                    );
                    assert(stopped_high(
                        loose@,
                        ig@,
                        reg@,
                        stamp,
                        makespan_lim as int,
                        start_addr as int,
                        first_fit,
                        at,
                    ));
                    }
                }
                return usize::MAX;
            }
        }
        proof {
            assert(!done.contains(id));
            assert(done.push(id).no_duplicates()) by {
                assert forall|a: int, b: int|
                    0 <= a < done.len() + 1 && 0 <= b < done.len() + 1 && a != b implies done.push(
                    id,
                )[a] != done.push(id)[b] by {
                    if a < done.len() {
                        assert(done.contains(done[a]));
                    }
                    if b < done.len() {
                        assert(done.contains(done[b]));
                    }
                }
            }
        }
        proof {
            if fresh {
            let after = reg@;
            assert(after == before.insert(id, placed));
            assert(stamped(after, id, stamp));
            assert forall|other: u32| stamped(after, other, stamp) <==> done.push(id).contains(
                other,
            ) by {
                if other != id {
                    assert(stamped(after, other, stamp) == stamped(before, other, stamp));
                    if done.contains(other) {
                        let w = choose|w: int| 0 <= w < done.len() && done[w] == other;
                        assert(done.push(id)[w] == other);
                    }
                    if done.push(id).contains(other) {
                        let w = choose|w: int| 0 <= w < done.push(id).len() && done.push(id)[w] == other;
                        assert(done[w] == other);
                    }
                } else {
                    assert(done.push(id)[done.len() as int] == id);
                }
            }
            assert(done.push(id).no_duplicates()) by {
                assert(!done.contains(id));
                assert forall|a: int, b: int|
                    0 <= a < done.len() + 1 && 0 <= b < done.len() + 1 && a != b implies done.push(
                    id,
                )[a] != done.push(id)[b] by {
                    if a < done.len() {
                        assert(done.contains(done[a]));
                    }
                    if b < done.len() {
                        assert(done.contains(done[b]));
                    }
                }
            }
            assert forall|other: u32| #[trigger] stamped(after, other, stamp) implies end_of(
                after[other],
            ) <= max_address by {
                if other != id {
                    assert(stamped(before, other, stamp));
                }
            }
            // The job stands clear of its squeezed neighbours.
            assert forall|i: int|
                0 <= i < ig@[id].len() && stamped(
                    after,
                    #[trigger] ig@[id][i],
                    stamp,
                ) implies apart(placed, after[ig@[id][i]]) by {
                let n = ig@[id][i];
                assert(n != id);
                assert(stamped(before, n, stamp));
                assert(unsorted_spans.contains(span_key(before, n)));
                assert(nbs@.contains(span_key(before, n)));
                let q = choose|q: int| 0 <= q < nbs.len() && nbs[q] == span_key(before, n);
                assert(nbs[q].1 <= offset || offset + to_squeeze.descr.size <= nbs[q].0);
            }
            assert(squeezed_apart(ig@, after, stamp)) by {
                assert forall|a: u32, i: int|
                    #![trigger ig@[a][i]]
                    stamped(after, a, stamp) && 0 <= i < ig@[a].len() && stamped(
                        after,
                        ig@[a][i],
                        stamp,
                    ) implies apart(after[a], after[ig@[a][i]]) by {
                    let b = ig@[a][i];
                    if a == id {
                    } else if b == id {
                        let back = choose|back: int| 0 <= back < ig@[id].len() && ig@[id][back] == a;
                        assert(stamped(after, ig@[id][back], stamp));
                        assert(apart(placed, after[ig@[id][back]]));
                    } else {
                        assert(stamped(before, a, stamp) && stamped(before, ig@[a][i], stamp));
                    }
                }
            }
            assert forall|other: u32| #[trigger] stamped(after, other, stamp) implies stands(
                start_addr as int,
                after[other].offset as int,
                after[other].descr.alignment,
            ) || after[other].offset == 0 || exists|i: int|
                0 <= i < ig@[other].len() && stamped(after, #[trigger] ig@[other][i], stamp)
                    && after[other].offset == end_of(after[ig@[other][i]]) by {
                if other == id {
                    if !stands(start_addr as int, offset as int, placed.descr.alignment) && offset
                        != 0 {
                        let q = choose|q: int| 0 <= q < nbs.len() && offset == (#[trigger] nbs[q]).1;
                        assert(nbs@.contains(nbs[q]));
                        assert(unsorted_spans.contains(nbs[q]));
                        let w = choose|w: int|
                            0 <= w < unsorted_spans.len() && unsorted_spans[w] == nbs[q];
                        assert(is_span_among(before, ns@, ns.len() as int, stamp, unsorted_spans[w]));
                        let i = choose|i: int|
                            0 <= i < ns.len() && stamped(before, #[trigger] ns[i], stamp)
                                && unsorted_spans[w] == span_key(before, ns[i]);
                        assert(ig@[id][i] != id);
                        assert(stamped(after, ig@[id][i], stamp));
                    }
                } else {
                    assert(stamped(before, other, stamp));
                    if !stands(
                        start_addr as int,
                        before[other].offset as int,
                        before[other].descr.alignment,
                    ) && before[other].offset != 0 {
                        let i = choose|i: int|
                            0 <= i < ig@[other].len() && stamped(before, #[trigger] ig@[other][i], stamp)
                                && before[other].offset == end_of(before[ig@[other][i]]);
                        assert(ig@[other][i] != id);
                        assert(stamped(after, ig@[other][i], stamp));
                    }
                }
            }
            assert(max_address == 0 || exists|w: u32| #[trigger]
                stamped(after, w, stamp) && end_of(after[w]) == max_address) by {
                if max_address == cand_makespan {
                    assert(stamped(after, id, stamp) && end_of(after[id]) == max_address);
                } else if max_address != 0 {
                    let w = choose|w: u32| #[trigger]
                        stamped(before, w, stamp) && end_of(before[w]) == max_address;
                    assert(w != id);
                    assert(stamped(after, w, stamp) && end_of(after[w]) == max_address);
                }
            }
            if sure {
                assert forall|q: int| 0 <= q < k + 1 implies after[done.push(id)[q]].offset == (
                #[trigger] order[q]).0 by {
                    if q < k {
                        assert(done.contains(done[q]));
                        assert(done[q] != id);
                        assert(before[done[q]].offset == order[q].0);
                    }
                }
            }
            }
            done = done.push(id);
        }
        k += 1;
    }
    proof {
        assert(squeeze_run(
            loose@,
            ig@,
            reg0,
            reg@,
            stamp,
            makespan_lim as int,
            start_addr as int,
            first_fit,
            max_address,
            order@,
            trace,
        ));
        if fresh {
        lemma_squeeze_done(
            loose@,
            ig@,
            reg0,
            reg@,
            unsorted,
            order@,
            done,
            ats,
            stamp,
            makespan_lim as int,
            start_addr as int,
            first_fit,
            max_address,
            sure,
        );
        }
    }
    max_address
}

/// How much is known of a group that is being unboxed: the more, the
/// less is left to find out.
pub open spec fn unknowns(c: UnboxCtrl) -> nat {
    match c {
        UnboxCtrl::Unknown => 2,
        UnboxCtrl::SameSizes(_) => 1,
        UnboxCtrl::NonOverlapping => 0,
    }
}

/// `id` is the identifier of a job of the input that is among `jobs` or
/// in a box among them, at any depth.
pub open spec fn holds(jobs: Seq<Arc<Job>>, id: u32) -> bool
    decreases jobs,
{
    if jobs.len() == 0 {
        false
    } else {
        holds(jobs.drop_last(), id) || match jobs.last().contents {
            Some(c) => holds(c@, id),
            None => jobs.last().id == id,
        }
    }
}

/// What one of the jobs holds, the jobs hold.
pub proof fn lemma_holds_member(jobs: Seq<Arc<Job>>, i: int, id: u32)
    requires
        0 <= i < jobs.len(),
        match jobs[i].contents {
            Some(c) => holds(c@, id),
            None => jobs[i].id == id,
        },
    ensures
        holds(jobs, id),
    decreases jobs.len(),
{
    if i < jobs.len() - 1 {
        assert(jobs.drop_last()[i] == jobs[i]);
        lemma_holds_member(jobs.drop_last(), i, id);
    }
}

/// What jobs taken from among others hold, the others hold.
pub proof fn lemma_holds_among(part: Seq<Arc<Job>>, whole: Seq<Arc<Job>>, id: u32)
    requires
        forall|i: int| 0 <= i < part.len() ==> whole.contains(#[trigger] part[i]),
        holds(part, id),
    ensures
        holds(whole, id),
    decreases part.len(),
{
    if part.len() > 0 {
        if holds(part.drop_last(), id) {
            assert forall|i: int| 0 <= i < part.drop_last().len() implies whole.contains(
                #[trigger] part.drop_last()[i],
            ) by {
                assert(part.drop_last()[i] == part[i]);
            }
            lemma_holds_among(part.drop_last(), whole, id);
        } else {
            assert(whole.contains(part[part.len() - 1]));
            let w = choose|w: int| 0 <= w < whole.len() && whole[w] == part.last();
            lemma_holds_member(whole, w, id);
        }
    }
}

/// The offset `r` rows of height `h` above `start`, as far as the
/// machine word goes.
pub open spec fn rise(start: ByteSteps, r: int, h: ByteSteps) -> ByteSteps {
    if start + r * h <= usize::MAX {
        (start + r * h) as usize
    } else {
        usize::MAX
    }
}

/// The most jobs of `jobs` that are live in any one slot.
pub open spec fn peak_of(jobs: Seq<Arc<Job>>) -> nat {
    choose|l: nat| is_peak(jobs, l, true)
}

/// The classes hold the jobs by size, the smallest size first: every
/// job is in the class of its size.
#[verifier::opaque]
pub open spec fn classes_of(jobs: Seq<Arc<Job>>, classes: Seq<Seq<Arc<Job>>>) -> bool {
    &&& forall|c: int, i: int|
        #![trigger classes[c][i]]
        0 <= c < classes.len() && 0 <= i < classes[c].len() ==> jobs.contains(classes[c][i])
            && classes[c][i].size == classes[c][0].size
    &&& forall|c: int| 0 <= c < classes.len() ==> (#[trigger] classes[c]).len() > 0
    &&& forall|c: int, d: int|
        #![trigger classes[c], classes[d]]
        0 <= c < d < classes.len() ==> classes[c][0].size < classes[d][0].size
    &&& forall|i: int|
        0 <= i < jobs.len() ==> exists|c: int, a: int|
            #![trigger classes[c][a]]
            0 <= c < classes.len() && 0 <= a < classes[c].len() && classes[c][a] == #[trigger] jobs[i]
}

/// Where the rows of the class `c` begin: above the rows of the classes
/// before it, of which each has as many rows as it has jobs live
/// together.
pub open spec fn class_start(classes: Seq<Seq<Arc<Job>>>, start: ByteSteps, c: int) -> ByteSteps
    decreases c,
{
    if c <= 0 {
        start
    } else {
        rise(class_start(classes, start, c - 1), peak_of(classes[c - 1]) as int, classes[c - 1][0].size)
    }
}

/// Where `jobs` are coloured and go row above row from `start`, each
/// row `h` high, the job `i` is in a row that begins at `s`.
pub open spec fn row_slot(jobs: Seq<Arc<Job>>, start: ByteSteps, h: ByteSteps, i: int, s: ByteSteps) -> bool {
    exists|rows: Seq<Seq<Arc<Job>>>, r: int, a: int|
        #![trigger rows[r][a]]
        is_coloring(jobs, rows) && 0 <= r < rows.len() && 0 <= a < rows[r].len() && rows[r][a] == jobs[i]
            && s == rise(start, r, h)
}

/// Where `jobs` are coloured class by class, the job `i` is in a row
/// that begins at `s`.
pub open spec fn class_slot(jobs: Seq<Arc<Job>>, start: ByteSteps, i: int, s: ByteSteps) -> bool {
    exists|classes: Seq<Seq<Arc<Job>>>, c: int, k: int|
        #![trigger classes[c][k]]
        classes_of(jobs, classes) && 0 <= c < classes.len() && 0 <= k < classes[c].len() && classes[c][k]
            == jobs[i] && row_slot(classes[c], class_start(classes, start, c), classes[c][0].size, k, s)
}

/// The event at `k` and the one after it are births.
pub open spec fn two_births(evts: Seq<Event>, k: int) -> bool {
    0 <= k < evts.len() - 1 && evts[k].evt_t == EventKind::Birth && evts[k + 1].evt_t == EventKind::Birth
}

/// No birth is followed by another birth.
pub open spec fn alternates(evts: Seq<Event>) -> bool {
    forall|k: int| !#[trigger] two_births(evts, k)
}

/// Says of the events of the jobs, as they go by, whether births and
/// deaths take turns.
#[verifier::opaque]
pub open spec fn turns(jobs: Seq<Arc<Job>>, yes: bool) -> bool {
    exists|evts: Seq<Event>| #[trigger] is_traversal(jobs, evts) && alternates(evts) == yes
}

/// Unboxing `jobs` from `start` comes to the job `i` at the offset `s`:
/// at `start` for a lone job and for jobs that are not live together,
/// at the beginning of its row for jobs of one size, and for others at
/// the beginning of its row among the rows of all the sizes.
pub open spec fn slot(jobs: Seq<Arc<Job>>, start: ByteSteps, ctrl: UnboxCtrl, i: int, s: ByteSteps) -> bool {
    if jobs.len() == 1 {
        s == start
    } else {
        match ctrl {
            UnboxCtrl::SameSizes(h) => proper_lifetimes(jobs) && row_slot(jobs, start, h, i, s),
            UnboxCtrl::NonOverlapping => s == start,
            UnboxCtrl::Unknown => if uniform(jobs) {
                proper_lifetimes(jobs) && row_slot(jobs, start, jobs[0].size, i, s)
            } else {
                (turns(jobs, true) && s == start) || (turns(jobs, false) && proper_lifetimes(jobs)
                    && class_slot(jobs, start, i, s))
            },
        }
    }
}

/// Unboxing `jobs` from `start` leaves the job `id` of the input at the
/// offset `off`: a job of `jobs` has the identifier and unboxing comes
/// to it at that offset, or a box of `jobs` is unboxed from the offset
/// at which unboxing comes to it, and that leaves the job there.
#[verifier::opaque]
pub open spec fn lands_at(jobs: Seq<Arc<Job>>, start: ByteSteps, ctrl: UnboxCtrl, id: u32, off: ByteSteps) -> bool
    decreases jobs,
{
    exists|i: int, s: ByteSteps|
        0 <= i < jobs.len() && #[trigger] slot(jobs, start, ctrl, i, s) && match jobs[i].contents {
            None => jobs[i].id == id && off == s,
            Some(c) => lands_at(c@, s, UnboxCtrl::Unknown, id, off),
        }
}

/// Unboxing the job from `s` leaves the job `id` of the input at `off`.
pub open spec fn lands_in(j: Arc<Job>, s: ByteSteps, id: u32, off: ByteSteps) -> bool {
    match j.contents {
        None => j.id == id && off == s,
        Some(c) => lands_at(c@, s, UnboxCtrl::Unknown, id, off),
    }
}

/// Where `jobs` are coloured and go row above row from `start`, each
/// row `h` high, unboxing leaves the job `id` of the input at `off`.
pub open spec fn lands_in_rows(jobs: Seq<Arc<Job>>, start: ByteSteps, h: ByteSteps, id: u32, off: ByteSteps) -> bool {
    exists|i: int, s: ByteSteps|
        0 <= i < jobs.len() && #[trigger] row_slot(jobs, start, h, i, s) && lands_in(jobs[i], s, id, off)
}

/// Unboxing leaves a job at an offset if it comes to a job of the set
/// at some offset and unboxing that job from there leaves it at the
/// offset.
pub proof fn lemma_lands(
    jobs: Seq<Arc<Job>>,
    start: ByteSteps,
    ctrl: UnboxCtrl,
    i: int,
    s: ByteSteps,
    id: u32,
    off: ByteSteps,
)
    requires
        0 <= i < jobs.len(),
        slot(jobs, start, ctrl, i, s),
        lands_in(jobs[i], s, id, off),
    ensures
        lands_at(jobs, start, ctrl, id, off),
{
    reveal(lands_at);
}

/// What unboxing a lone box leaves, it leaves of the set of that box.
pub proof fn lemma_lands_lone(jobs: Seq<Arc<Job>>, start: ByteSteps, ctrl: UnboxCtrl, id: u32, off: ByteSteps)
    requires
        jobs.len() == 1,
        lands_in(jobs[0], start, id, off),
    ensures
        lands_at(jobs, start, ctrl, id, off),
{
    lemma_lands(jobs, start, ctrl, 0, start, id, off);
}

/// What unboxing leaves of jobs that are coloured, it leaves of jobs
/// known to have the height of the rows as their size, and of jobs
/// found to have it.
pub proof fn lemma_lands_rows(
    jobs: Seq<Arc<Job>>,
    start: ByteSteps,
    h: ByteSteps,
    ctrl: UnboxCtrl,
    id: u32,
    off: ByteSteps,
)
    requires
        jobs.len() != 1,
        proper_lifetimes(jobs),
        lands_in_rows(jobs, start, h, id, off),
        ctrl == UnboxCtrl::SameSizes(h) || (ctrl == UnboxCtrl::Unknown && uniform(jobs) && jobs.len() > 0
            && h == jobs[0].size),
    ensures
        lands_at(jobs, start, ctrl, id, off),
{
    let (i, s) = choose|i: int, s: ByteSteps|
        0 <= i < jobs.len() && #[trigger] row_slot(jobs, start, h, i, s) && lands_in(jobs[i], s, id, off);
    lemma_lands(jobs, start, ctrl, i, s, id, off);
}

/// What unboxing leaves of one of several jobs that all begin at
/// `start`, it leaves of jobs known not to be live together, and of
/// jobs found not to be.
pub proof fn lemma_lands_together(
    jobs: Seq<Arc<Job>>,
    start: ByteSteps,
    ctrl: UnboxCtrl,
    i: int,
    id: u32,
    off: ByteSteps,
)
    requires
        0 <= i < jobs.len(),
        lands_in(jobs[i], start, id, off),
        jobs.len() == 1 || ctrl == UnboxCtrl::NonOverlapping || (ctrl == UnboxCtrl::Unknown && !uniform(jobs)
            && turns(jobs, true)),
    ensures
        lands_at(jobs, start, ctrl, id, off),
{
    lemma_lands(jobs, start, ctrl, i, start, id, off);
}

/// What unboxing leaves of jobs known to have one size or known not to
/// be live together, it leaves of the same jobs once that was found
/// out of them.
pub proof fn lemma_lands_found(
    jobs: Seq<Arc<Job>>,
    start: ByteSteps,
    known: UnboxCtrl,
    id: u32,
    off: ByteSteps,
)
    requires
        jobs.len() > 1,
        lands_at(jobs, start, known, id, off),
        (uniform(jobs) && known == UnboxCtrl::SameSizes(jobs[0].size)) || (!uniform(jobs) && turns(jobs, true)
            && known == UnboxCtrl::NonOverlapping),
    ensures
        lands_at(jobs, start, UnboxCtrl::Unknown, id, off),
{
    reveal(lands_at);
    let (i, s) = choose|i: int, s: ByteSteps|
        0 <= i < jobs.len() && #[trigger] slot(jobs, start, known, i, s) && lands_in(jobs[i], s, id, off);
    lemma_lands(jobs, start, UnboxCtrl::Unknown, i, s, id, off);
}

/// A job of a class is a job of the set.
pub proof fn lemma_class_member(jobs: Seq<Arc<Job>>, classes: Seq<Seq<Arc<Job>>>, c: int, k: int)
    requires
        classes_of(jobs, classes),
        0 <= c < classes.len(),
        0 <= k < classes[c].len(),
    ensures
        jobs.contains(classes[c][k]),
{
    reveal(classes_of);
}

/// What unboxing leaves of a class of jobs, coloured above the classes
/// before it, it leaves of the jobs of all the classes.
pub proof fn lemma_lands_class(
    jobs: Seq<Arc<Job>>,
    start: ByteSteps,
    classes: Seq<Seq<Arc<Job>>>,
    c: int,
    id: u32,
    off: ByteSteps,
)
    requires
        jobs.len() != 1,
        !uniform(jobs),
        turns(jobs, false),
        proper_lifetimes(jobs),
        classes_of(jobs, classes),
        0 <= c < classes.len(),
        lands_in_rows(classes[c], class_start(classes, start, c), classes[c][0].size, id, off),
    ensures
        lands_at(jobs, start, UnboxCtrl::Unknown, id, off),
{
    let from = class_start(classes, start, c);
    let h = classes[c][0].size;
    let (k, s) = choose|k: int, s: ByteSteps|
        0 <= k < classes[c].len() && #[trigger] row_slot(classes[c], from, h, k, s) && lands_in(
            classes[c][k],
            s,
            id,
            off,
        );
    lemma_class_member(jobs, classes, c, k);
    let i = choose|i: int| 0 <= i < jobs.len() && jobs[i] == classes[c][k];
    assert(class_slot(jobs, start, i, s)) by {
        assert(classes[c][k] == jobs[i] && row_slot(classes[c], class_start(classes, start, c), classes[c][0].size, k, s));
    }
    assert(slot(jobs, start, UnboxCtrl::Unknown, i, s));
    lemma_lands(jobs, start, UnboxCtrl::Unknown, i, s, id, off);
}

/// What unboxing leaves of a row of coloured jobs, it leaves of the
/// jobs.
pub proof fn lemma_lands_row(
    jobs: Seq<Arc<Job>>,
    rows: Seq<Seq<Arc<Job>>>,
    r: int,
    start: ByteSteps,
    h: ByteSteps,
    id: u32,
    off: ByteSteps,
)
    requires
        is_coloring(jobs, rows),
        0 <= r < rows.len(),
        lands_at(rows[r], rise(start, r, h), UnboxCtrl::NonOverlapping, id, off),
    ensures
        lands_in_rows(jobs, start, h, id, off),
{
    reveal(lands_at);
    let from = rise(start, r, h);
    let (a, s) = choose|a: int, s: ByteSteps|
        0 <= a < rows[r].len() && #[trigger] slot(rows[r], from, UnboxCtrl::NonOverlapping, a, s) && lands_in(
            rows[r][a],
            s,
            id,
            off,
        );
    assert(s == from);
    lemma_row_members(jobs, rows);
    assert(jobs.contains(rows[r][a]));
    let i = choose|i: int| 0 <= i < jobs.len() && jobs[i] == rows[r][a];
    assert(row_slot(jobs, start, h, i, s));
}

/// One row more is one row height more, as far as the machine word
/// goes.
pub proof fn lemma_rise_step(start: ByteSteps, r: int, h: ByteSteps)
    requires
        0 <= r,
    ensures
        rise(start, r + 1, h) == if rise(start, r, h) + h <= usize::MAX {
            (rise(start, r, h) + h) as usize
        } else {
            usize::MAX
        },
        rise(start, 0, h) == start,
{
    assert((r + 1) * h == r * h + h) by (nonlinear_arith);
    assert(0 * h == 0) by (nonlinear_arith);
    assert(r * h >= 0) by (nonlinear_arith)
        requires
            r >= 0,
            h >= 0,
    ;
}

/// The most jobs live in any one slot are as many as any number that is
/// the peak of the jobs.
pub proof fn lemma_peak_of(jobs: Seq<Arc<Job>>, k: nat)
    requires
        is_peak(jobs, k, true),
    ensures
        peak_of(jobs) == k,
{
    crate::laws::peak_is_unique(jobs, peak_of(jobs), k, true);
}

/// Every loose entry is at the offset at which unboxing leaves its job.
pub open spec fn loose_lands(loose: Seq<(ByteSteps, u32)>, jobs: Seq<Arc<Job>>, start: ByteSteps, ctrl: UnboxCtrl) -> bool {
    forall|q: int| 0 <= q < loose.len() ==> lands_at(jobs, start, ctrl, (#[trigger] loose[q]).1, loose[q].0)
}

/// Every loose entry lies at `floor` or above and names a job of the
/// input, other than the dummy, that `jobs` hold.
pub open spec fn loose_of(loose: Seq<(ByteSteps, u32)>, jobs: Seq<Arc<Job>>, floor: ByteSteps, dumb_id: u32) -> bool {
    forall|q: int|
        0 <= q < loose.len() ==> (#[trigger] loose[q]).0 >= floor && loose[q].1 != dumb_id && holds(
            jobs,
            loose[q].1,
        )
}

/// Says whether every job dies after it is born.
fn all_proper(jobs: &JobSet) -> (r: bool)
    ensures
        r == proper_lifetimes(jobs@),
{
    let mut i: usize = 0;
    while i < jobs.len()
        invariant
            i <= jobs.len(),
            forall|q: int| 0 <= q < i ==> (#[trigger] jobs[q]).birth < jobs[q].death,
        decreases jobs.len() - i,
    {
        if jobs[i].birth >= jobs[i].death {
            return false;
        }
        i += 1;
    }
    true
}

/// Says whether every job has the size of the first.
fn one_size(jobs: &JobSet) -> (r: bool)
    requires
        jobs.len() > 0,
    ensures
        r == forall|i: int| 0 <= i < jobs.len() ==> (#[trigger] jobs[i]).size == jobs[0].size,
{
    let size_probe = jobs[0].size;
    let mut i: usize = 1;
    while i < jobs.len()
        invariant
            1 <= i <= jobs.len(),
            size_probe == jobs[0].size,
            forall|q: int| 0 <= q < i ==> (#[trigger] jobs[q]).size == size_probe,
        decreases jobs.len() - i,
    {
        if jobs[i].size != size_probe {
            return false;
        }
        i += 1;
    }
    true
}

/// Says whether births and deaths take turns as the events of the jobs
/// go by, so that no two jobs are live together.
fn take_turns(jobs: &JobSet) -> (r: bool)
    ensures
        turns(jobs@, r),
{
    let evts = get_events(jobs);
    let ghost all = evts@;
    let mut last_was_birth = false;
    let mut k: usize = 0;
    while k < evts.len()
        invariant
            k <= evts.len(),
            evts@ == all,
            is_traversal(jobs@, all),
            last_was_birth == (k > 0 && all[k - 1].evt_t == EventKind::Birth),
            forall|w: int| w < k - 1 ==> !#[trigger] two_births(all, w),
        decreases evts.len() - k,
    {
        match evts[k].evt_t {
            EventKind::Birth => {
                if last_was_birth {
                    proof {
                        reveal(turns);
                        assert(two_births(all, k - 1));
                        assert(!alternates(all));
                    }
                    return false;
                }
                last_was_birth = true;
            },
            EventKind::Death => {
                last_was_birth = false;
            },
        }
        k += 1;
    }
    proof {
        reveal(turns);
        assert(alternates(all));
    }
    true
}

/// A second list of the same jobs.
fn copy_set(jobs: &JobSet) -> (res: JobSet)
    ensures
        res@ == jobs@,
{
    let mut res: JobSet = Vec::new();
    let mut i: usize = 0;
    while i < jobs.len()
        invariant
            i <= jobs.len(),
            res@ == jobs@.take(i as int),
        decreases jobs.len() - i,
    {
        res.push(share(&jobs[i]));
        proof {
            assert(jobs@.take(i + 1) =~= jobs@.take(i as int).push(jobs@[i as int]));
        }
        i += 1;
    }
    proof {
        assert(jobs@.take(jobs.len() as int) =~= jobs@);
    }
    res
}

/// The job, if it is one of the input, has the identifier; if it is a
/// box, it holds a job of the input with the identifier.
pub open spec fn held_by(j: Job, id: u32) -> bool {
    match j.contents {
        Some(c) => holds(c@, id),
        None => j.id == id,
    }
}

/// What the jobs hold, one of them holds.
pub proof fn lemma_holds_found(jobs: Seq<Arc<Job>>, id: u32)
    requires
        holds(jobs, id),
    ensures
        exists|i: int| 0 <= i < jobs.len() && held_by(*#[trigger] jobs[i], id),
    decreases jobs.len(),
{
    if jobs.len() > 0 {
        if holds(jobs.drop_last(), id) {
            lemma_holds_found(jobs.drop_last(), id);
            let i = choose|i: int|
                0 <= i < jobs.drop_last().len() && held_by(*#[trigger] jobs.drop_last()[i], id);
            assert(held_by(*jobs[i], id));
        } else {
            assert(held_by(*jobs[jobs.len() - 1], id));
        }
    }
}

/// The job behind the pointer has the identifier or holds a job of the
/// input that has it.
pub open spec fn held_in(j: Arc<Job>, id: u32) -> bool {
    held_by(*j, id)
}

/// No job of the input is held twice: no two of the jobs hold one
/// identifier, and the same is true of what every box among them holds.
#[verifier::opaque]
pub open spec fn once(jobs: Seq<Arc<Job>>) -> bool
    decreases jobs,
{
    &&& forall|i: int, j: int, id: u32|
        #![trigger held_by(*jobs[i], id), held_by(*jobs[j], id)]
        0 <= i < jobs.len() && 0 <= j < jobs.len() && i != j ==> !(held_by(*jobs[i], id) && held_by(
            *jobs[j],
            id,
        ))
    &&& forall|i: int|
        0 <= i < jobs.len() ==> match (#[trigger] jobs[i]).contents {
            Some(c) => once(c@),
            None => true,
        }
}

/// Where no job of the input is held twice, no two of the jobs hold
/// one identifier.
pub proof fn lemma_once_pair(jobs: Seq<Arc<Job>>, i: int, j: int, id: u32)
    requires
        once(jobs),
        0 <= i < jobs.len(),
        0 <= j < jobs.len(),
        i != j,
        held_by(*jobs[i], id),
    ensures
        !held_by(*jobs[j], id),
{
    reveal(once);
}

/// Where no job of the input is held twice, none is held twice by what
/// a box among the jobs holds.
pub proof fn lemma_once_contents(jobs: Seq<Arc<Job>>, i: int)
    requires
        once(jobs),
        0 <= i < jobs.len(),
    ensures
        jobs[i].contents matches Some(c) ==> once(c@),
{
    reveal(once);
}

/// A value that counts twice in the multiset of a sequence is at two
/// places of it.
pub proof fn lemma_two_places(s: Seq<Arc<Job>>, x: Arc<Job>)
    requires
        s.to_multiset().count(x) >= 2,
    ensures
        exists|i: int, j: int| #![trigger s[i], s[j]] 0 <= i < j < s.len() && s[i] == x && s[j] == x,
    decreases s.len(),
{
    broadcast use vstd::multiset::group_multiset_axioms;

    if s.len() == 0 {
        vstd::seq_lib::to_multiset_len(s);
        vstd::multiset::lemma_multiset_empty_len(s.to_multiset());
    } else {
        let rest = s.drop_last();
        assert(s =~= rest.push(s.last()));
        vstd::seq_lib::to_multiset_build(rest, s.last());
        if s.last() == x {
            assert(rest.to_multiset().count(x) >= 1);
            vstd::seq_lib::to_multiset_contains(rest, x);
            let i = choose|i: int| 0 <= i < rest.len() && rest[i] == x;
            assert(s[i] == x && s[s.len() - 1] == x);
        } else {
            lemma_two_places(rest, x);
            let (i, j) = choose|i: int, j: int|
                #![trigger rest[i], rest[j]]
                0 <= i < j < rest.len() && rest[i] == x && rest[j] == x;
            assert(s[i] == x && s[j] == x);
        }
    }
}

/// Where no job of the input is held twice by the jobs, none is held
/// at two places of rows that are made of the jobs.
pub proof fn lemma_rows_apart(
    jobs: Seq<Arc<Job>>,
    rows: Seq<Seq<Arc<Job>>>,
    r1: int,
    a1: int,
    r2: int,
    a2: int,
    id: u32,
)
    requires
        once(jobs),
        crate::model::rows_multiset(rows) == jobs.to_multiset(),
        0 <= r1 < rows.len(),
        0 <= a1 < rows[r1].len(),
        0 <= r2 < rows.len(),
        0 <= a2 < rows[r2].len(),
        r1 != r2 || a1 != a2,
        held_by(*rows[r1][a1], id),
    ensures
        !held_by(*rows[r2][a2], id),
{
    if held_in(rows[r2][a2], id) {
        let v1 = rows[r1][a1];
        let v2 = rows[r2][a2];
        lemma_row_members(jobs, rows);
        assert(jobs.contains(rows[r1][a1]));
        assert(jobs.contains(rows[r2][a2]));
        if v1 == v2 {
            crate::model::lemma_twice_in_rows(rows, r1, a1, r2, a2);
            lemma_two_places(jobs, v1);
            let (i, j) = choose|i: int, j: int|
                #![trigger jobs[i], jobs[j]]
                0 <= i < j < jobs.len() && jobs[i] == v1 && jobs[j] == v1;
            lemma_once_pair(jobs, i, j, id);
        } else {
            let i = choose|i: int| 0 <= i < jobs.len() && jobs[i] == v1;
            let j = choose|j: int| 0 <= j < jobs.len() && jobs[j] == v2;
            lemma_once_pair(jobs, i, j, id);
        }
    }
}

/// Where no job of the input is held twice by the jobs, none is held
/// twice by a row that is made of the jobs, and none by two such rows.
pub proof fn lemma_rows_once(jobs: Seq<Arc<Job>>, rows: Seq<Seq<Arc<Job>>>)
    requires
        once(jobs),
        crate::model::rows_multiset(rows) == jobs.to_multiset(),
    ensures
        forall|r: int| 0 <= r < rows.len() ==> once(#[trigger] rows[r]),
        forall|r1: int, r2: int, id: u32|
            #![trigger holds(rows[r1], id), holds(rows[r2], id)]
            0 <= r1 < rows.len() && 0 <= r2 < rows.len() && r1 != r2 ==> !(holds(rows[r1], id) && holds(
                rows[r2],
                id,
            )),
{
    lemma_row_members(jobs, rows);
    assert forall|r: int| 0 <= r < rows.len() implies once(#[trigger] rows[r]) by {
        let row = rows[r];
        assert forall|i: int, j: int, id: u32|
            #![trigger held_by(*row[i], id), held_by(*row[j], id)]
            0 <= i < row.len() && 0 <= j < row.len() && i != j implies !(held_by(*row[i], id) && held_by(
            *row[j],
            id,
        )) by {
            if held_in(row[i], id) {
                lemma_rows_apart(jobs, rows, r, i, r, j, id);
            }
        }
        assert forall|i: int| 0 <= i < row.len() implies match (#[trigger] row[i]).contents {
            Some(c) => once(c@),
            None => true,
        } by {
            assert(jobs.contains(rows[r][i]));
            let w = choose|w: int| 0 <= w < jobs.len() && jobs[w] == row[i];
            lemma_once_contents(jobs, w);
        }
        reveal(once);
    }
    assert forall|r1: int, r2: int, id: u32|
        #![trigger holds(rows[r1], id), holds(rows[r2], id)]
        0 <= r1 < rows.len() && 0 <= r2 < rows.len() && r1 != r2 implies !(holds(rows[r1], id) && holds(
        rows[r2],
        id,
    )) by {
        if holds(rows[r1], id) && holds(rows[r2], id) {
            lemma_holds_found(rows[r1], id);
            lemma_holds_found(rows[r2], id);
            let a1 = choose|a1: int| 0 <= a1 < rows[r1].len() && held_by(*#[trigger] rows[r1][a1], id);
            let a2 = choose|a2: int| 0 <= a2 < rows[r2].len() && held_by(*#[trigger] rows[r2][a2], id);
            lemma_rows_apart(jobs, rows, r1, a1, r2, a2, id);
        }
    }
}

/// No job of the input is held twice by a row, and none by two rows.
#[verifier::opaque]
pub open spec fn rows_held_once(rows: Seq<Seq<Arc<Job>>>) -> bool {
    &&& forall|r: int| 0 <= r < rows.len() ==> once(#[trigger] rows[r])
    &&& forall|r1: int, r2: int, id: u32|
        #![trigger holds(rows[r1], id), holds(rows[r2], id)]
        0 <= r1 < rows.len() && 0 <= r2 < rows.len() && r1 != r2 ==> !(holds(rows[r1], id) && holds(
            rows[r2],
            id,
        ))
}

/// One of the first `r` rows holds the job of the input.
pub open spec fn held_below(rows: Seq<Seq<Arc<Job>>>, r: int, id: u32) -> bool {
    exists|x: int| 0 <= x < r && x < rows.len() && #[trigger] holds(rows[x], id)
}

/// One of the first `i` jobs has the identifier or holds the job of the
/// input that has it.
pub open spec fn held_before(jobs: Seq<Arc<Job>>, i: int, id: u32) -> bool {
    exists|k: int| 0 <= k < i && k < jobs.len() && #[trigger] held_in(jobs[k], id)
}

/// Rows made of jobs that hold no job of the input twice hold none
/// twice.
pub proof fn lemma_rows_held_once(jobs: Seq<Arc<Job>>, rows: Seq<Seq<Arc<Job>>>)
    requires
        once(jobs),
        crate::model::rows_multiset(rows) == jobs.to_multiset(),
    ensures
        rows_held_once(rows),
{
    lemma_rows_once(jobs, rows);
    reveal(rows_held_once);
}

/// A row of rows that hold no job of the input twice holds none twice.
pub proof fn lemma_row_once(rows: Seq<Seq<Arc<Job>>>, r: int)
    requires
        rows_held_once(rows),
        0 <= r < rows.len(),
    ensures
        once(rows[r]),
{
    reveal(rows_held_once);
}

/// The entries of the rows so far, each job once, with the entries of
/// the next row, each job once: each job once.
pub proof fn lemma_row_step(
    rows: Seq<Seq<Arc<Job>>>,
    r: int,
    old_part: Seq<(ByteSteps, u32)>,
    added: Seq<(ByteSteps, u32)>,
)
    requires
        rows_held_once(rows),
        0 <= r < rows.len(),
        loose_ids(old_part).no_duplicates(),
        loose_ids(added).no_duplicates(),
        forall|p: int| 0 <= p < old_part.len() ==> held_below(rows, r, (#[trigger] old_part[p]).1),
        forall|q: int| 0 <= q < added.len() ==> holds(rows[r], (#[trigger] added[q]).1),
    ensures
        loose_ids(old_part + added).no_duplicates(),
        forall|p: int|
            0 <= p < (old_part + added).len() ==> held_below(rows, r + 1, (#[trigger] (old_part + added)[p]).1),
{
    reveal(rows_held_once);
    assert forall|p: int, q: int| 0 <= p < old_part.len() && 0 <= q < added.len() implies (
    #[trigger] old_part[p]).1 != (#[trigger] added[q]).1 by {
        let id = old_part[p].1;
        assert(held_below(rows, r, id));
        let x = choose|x: int| 0 <= x < r && x < rows.len() && #[trigger] holds(rows[x], id);
        if added[q].1 == id {
            assert(holds(rows[r], id));
            assert(!(holds(rows[x], id) && holds(rows[r], id)));
        }
    }
    lemma_ids_apart(old_part, added);
    let all = old_part + added;
    assert forall|p: int| 0 <= p < all.len() implies held_below(rows, r + 1, (#[trigger] all[p]).1) by {
        if p < old_part.len() {
            assert(all[p] == old_part[p]);
            assert(held_below(rows, r, old_part[p].1));
            let x = choose|x: int| 0 <= x < r && x < rows.len() && #[trigger] holds(rows[x], old_part[p].1);
            assert(holds(rows[x], all[p].1));
        } else {
            assert(all[p] == added[p - old_part.len()]);
            assert(holds(rows[r], all[p].1));
        }
    }
}

/// The entries of the jobs so far, each job of the input once, with the
/// entries of the next job, each once: each once.
pub proof fn lemma_job_step(
    jobs: Seq<Arc<Job>>,
    i: int,
    old_part: Seq<(ByteSteps, u32)>,
    added: Seq<(ByteSteps, u32)>,
)
    requires
        once(jobs),
        0 <= i < jobs.len(),
        loose_ids(old_part).no_duplicates(),
        loose_ids(added).no_duplicates(),
        forall|p: int| 0 <= p < old_part.len() ==> held_before(jobs, i, (#[trigger] old_part[p]).1),
        forall|q: int| 0 <= q < added.len() ==> held_in(jobs[i], (#[trigger] added[q]).1),
    ensures
        loose_ids(old_part + added).no_duplicates(),
        forall|p: int|
            0 <= p < (old_part + added).len() ==> held_before(jobs, i + 1, (#[trigger] (old_part + added)[p]).1),
{
    assert forall|p: int, q: int| 0 <= p < old_part.len() && 0 <= q < added.len() implies (
    #[trigger] old_part[p]).1 != (#[trigger] added[q]).1 by {
        let id = old_part[p].1;
        assert(held_before(jobs, i, id));
        let k = choose|k: int| 0 <= k < i && k < jobs.len() && #[trigger] held_in(jobs[k], id);
        lemma_once_pair(jobs, k, i, id);
    }
    lemma_ids_apart(old_part, added);
    let all = old_part + added;
    assert forall|p: int| 0 <= p < all.len() implies held_before(jobs, i + 1, (#[trigger] all[p]).1) by {
        if p < old_part.len() {
            assert(all[p] == old_part[p]);
            assert(held_before(jobs, i, old_part[p].1));
            let k = choose|k: int| 0 <= k < i && k < jobs.len() && #[trigger] held_in(jobs[k], old_part[p].1);
            assert(held_in(jobs[k], all[p].1));
        } else {
            assert(all[p] == added[p - old_part.len()]);
            assert(held_in(jobs[i], all[p].1));
        }
    }
}

/// Entries of which none names a job twice, followed by others of which
/// none does and which name other jobs, name no job twice.
pub proof fn lemma_ids_apart(a: Seq<(ByteSteps, u32)>, b: Seq<(ByteSteps, u32)>)
    requires
        loose_ids(a).no_duplicates(),
        loose_ids(b).no_duplicates(),
        forall|p: int, q: int| 0 <= p < a.len() && 0 <= q < b.len() ==> (#[trigger] a[p]).1 != (#[trigger] b[q]).1,
    ensures
        loose_ids(a + b).no_duplicates(),
{
    let all = loose_ids(a + b);
    assert forall|i: int, j: int| 0 <= i < all.len() && 0 <= j < all.len() && i != j implies all[i] != all[j] by {
        if i < a.len() && j < a.len() {
            assert(all[i] == loose_ids(a)[i] && all[j] == loose_ids(a)[j]);
        } else if i >= a.len() && j >= a.len() {
            assert(all[i] == loose_ids(b)[i - a.len()] && all[j] == loose_ids(b)[j - a.len()]);
        } else if i < a.len() {
            assert(all[i] == a[i].1 && all[j] == b[j - a.len()].1);
        } else {
            assert(all[j] == a[j].1 && all[i] == b[i - a.len()].1);
        }
    }
}

/// Every job dies after it is born, and every box holds jobs of which
/// the same is true.
pub open spec fn sound(jobs: Seq<Arc<Job>>) -> bool
    decreases jobs,
{
    if jobs.len() == 0 {
        true
    } else {
        &&& sound(jobs.drop_last())
        &&& jobs.last().birth < jobs.last().death
        &&& match jobs.last().contents {
            Some(c) => c.len() > 0 && sound(c@),
            None => true,
        }
    }
}

/// What is true of sound jobs is true of each.
pub proof fn lemma_sound_member(jobs: Seq<Arc<Job>>, i: int)
    requires
        sound(jobs),
        0 <= i < jobs.len(),
    ensures
        jobs[i].birth < jobs[i].death,
        jobs[i].contents matches Some(c) ==> c.len() > 0 && sound(c@),
    decreases jobs.len(),
{
    if i < jobs.len() - 1 {
        assert(jobs.drop_last()[i] == jobs[i]);
        lemma_sound_member(jobs.drop_last(), i);
    }
}

/// Jobs taken from among sound jobs are sound.
pub proof fn lemma_sound_among(part: Seq<Arc<Job>>, whole: Seq<Arc<Job>>)
    requires
        sound(whole),
        forall|i: int| 0 <= i < part.len() ==> whole.contains(#[trigger] part[i]),
    ensures
        sound(part),
        proper_lifetimes(part),
    decreases part.len(),
{
    if part.len() > 0 {
        assert forall|i: int| 0 <= i < part.drop_last().len() implies whole.contains(
            #[trigger] part.drop_last()[i],
        ) by {
            assert(part.drop_last()[i] == part[i]);
        }
        lemma_sound_among(part.drop_last(), whole);
        assert(whole.contains(part[part.len() - 1]));
        let w = choose|w: int| 0 <= w < whole.len() && whole[w] == part.last();
        lemma_sound_member(whole, w);
        assert forall|i: int| 0 <= i < part.len() implies (#[trigger] part[i]).birth < part[i].death by {
            if i < part.len() - 1 {
                assert(part.drop_last()[i] == part[i]);
            }
        }
    }
}

/// Where the jobs are sound, every job of the input that they hold,
/// the dummy left out, has a loose entry.
pub open spec fn loose_covers(loose: Seq<(ByteSteps, u32)>, jobs: Seq<Arc<Job>>, dumb_id: u32) -> bool {
    sound(jobs) ==> forall|id: u32|
        #[trigger] holds(jobs, id) && id != dumb_id ==> loose_ids(loose).contains(id)
}

/// The identifiers of entries stay among those of the entries with more
/// behind them, and those of the new entries come in.
pub proof fn lemma_loose_ids_append(a: Seq<(ByteSteps, u32)>, b: Seq<(ByteSteps, u32)>)
    ensures
        forall|id: u32|
            loose_ids(a + b).contains(id) <==> (loose_ids(a).contains(id) || loose_ids(b).contains(id)),
{
    assert forall|id: u32|
        loose_ids(a + b).contains(id) <==> (loose_ids(a).contains(id) || loose_ids(b).contains(
            id,
        )) by {
        if loose_ids(a).contains(id) {
            let w = choose|w: int| 0 <= w < loose_ids(a).len() && loose_ids(a)[w] == id;
            assert(loose_ids(a + b)[w] == id);
        }
        if loose_ids(b).contains(id) {
            let w = choose|w: int| 0 <= w < loose_ids(b).len() && loose_ids(b)[w] == id;
            assert(loose_ids(a + b)[a.len() + w] == id);
        }
        if loose_ids(a + b).contains(id) {
            let w = choose|w: int| 0 <= w < loose_ids(a + b).len() && loose_ids(a + b)[w] == id;
            if w < a.len() {
                assert(loose_ids(a)[w] == id);
            } else {
                assert(loose_ids(b)[w - a.len()] == id);
            }
        }
    }
}

/// Colours the jobs and unboxes row after row, each row one row height
/// above the one before. Returns where the next row would begin.
fn unbox_rows(
    jobs: &JobSet,
    start_offset: ByteSteps,
    row_height: ByteSteps,
    dumb_id: u32,
    res: &mut LoosePlacement,
    Ghost(whole): Ghost<Seq<Arc<Job>>>,
    Ghost(floor): Ghost<ByteSteps>,
) -> (next: ByteSteps)
    requires
        proper_lifetimes(jobs@),
        forall|i: int| 0 <= i < jobs.len() ==> whole.contains(#[trigger] jobs[i]),
        floor <= start_offset,
        loose_of(old(res)@, whole, floor, dumb_id),
    ensures
        loose_of(final(res)@, whole, floor, dumb_id),
        start_offset <= next,
        old(res)@.len() <= final(res)@.len(),
        forall|q: int| 0 <= q < old(res)@.len() ==> #[trigger] final(res)@[q] == old(res)@[q],
        forall|q: int|
            old(res)@.len() <= q < final(res)@.len() ==> lands_in_rows(
                jobs@,
                start_offset,
                row_height,
                (#[trigger] final(res)@[q]).1,
                final(res)@[q].0,
            ),
        exists|k: nat| #[trigger] is_peak(jobs@, k, true) && next == rise(start_offset, k as int, row_height),
        forall|q: int|
            0 <= q < final(res)@.skip(old(res)@.len() as int).len() ==> holds(
                jobs@,
                (#[trigger] final(res)@.skip(old(res)@.len() as int)[q]).1,
            ),
        once(jobs@) ==> loose_ids(final(res)@.skip(old(res)@.len() as int)).no_duplicates(),
        forall|id: u32| loose_ids(old(res)@).contains(id) ==> loose_ids(final(res)@).contains(id),
        sound(whole) ==> forall|i: int, id: u32|
            0 <= i < jobs.len() && #[trigger] held_by(*jobs[i], id) && id != dumb_id ==> loose_ids(
                final(res)@,
            ).contains(id),
    decreases nesting(whole), 1nat,
{
    let rows = interval_graph_coloring(copy_set(jobs));
    proof {
        lemma_row_members(jobs@, rows_view(rows@));
    }
    let mut start = start_offset;
    let mut r: usize = 0;
    let ghost n0 = res@.len() as int;
    proof {
        lemma_rise_step(start_offset, 0, row_height);
        if once(jobs@) {
            lemma_rows_held_once(jobs@, rows_view(rows@));
        }
        assert(loose_ids(res@.skip(n0)) =~= Seq::<u32>::empty());
    }
    while r < rows.len()
        invariant
            r <= rows.len(),
            n0 == old(res)@.len(),
            once(jobs@) ==> rows_held_once(rows_view(rows@)),
            once(jobs@) ==> loose_ids(res@.skip(n0)).no_duplicates(),
            once(jobs@) ==> forall|p: int|
                0 <= p < res@.skip(n0).len() ==> held_below(rows_view(rows@), r as int, (#[trigger] res@.skip(
                    n0,
                )[p]).1),
            forall|q: int| 0 <= q < res@.skip(n0).len() ==> holds(jobs@, (#[trigger] res@.skip(n0)[q]).1),
            floor <= start_offset <= start,
            start == rise(start_offset, r as int, row_height),
            old(res)@.len() <= res@.len(),
            forall|q: int| 0 <= q < old(res)@.len() ==> #[trigger] res@[q] == old(res)@[q],
            forall|q: int|
                old(res)@.len() <= q < res@.len() ==> lands_in_rows(
                    jobs@,
                    start_offset,
                    row_height,
                    (#[trigger] res@[q]).1,
                    res@[q].0,
                ),
            forall|i: int| 0 <= i < jobs.len() ==> whole.contains(#[trigger] jobs[i]),
            is_coloring(jobs@, rows_view(rows@)),
            forall|r: int, a: int|
                #![trigger rows_view(rows@)[r][a]]
                0 <= r < rows.len() && 0 <= a < rows_view(rows@)[r].len() ==> jobs@.contains(
                    rows_view(rows@)[r][a],
                ),
            loose_of(res@, whole, floor, dumb_id),
            forall|id: u32| loose_ids(old(res)@).contains(id) ==> loose_ids(res@).contains(id),
            sound(whole) ==> forall|x: int, id: u32|
                0 <= x < r && #[trigger] holds(rows[x]@, id) && id != dumb_id ==> loose_ids(
                    res@,
                ).contains(id),
        decreases rows.len() - r,
    {
        proof {
            assert forall|i: int| 0 <= i < rows[r as int].len() implies whole.contains(
                #[trigger] rows[r as int][i],
            ) by {
                assert(jobs@.contains(rows_view(rows@)[r as int][i]));
                let w = choose|w: int| 0 <= w < jobs.len() && jobs[w] == rows[r as int][i];
                assert(whole.contains(jobs[w]));
            }
            lemma_nesting_among(rows[r as int]@, whole);
            if sound(whole) {
                lemma_sound_among(rows[r as int]@, whole);
            }
        }
        let ghost before = res@;
        let mut sub = unbox(&rows[r], start, UnboxCtrl::NonOverlapping, dumb_id);
        let ghost added = sub@;
        proof {
            assert forall|q: int| 0 <= q < sub.len() implies holds(whole, (#[trigger] sub[q]).1) by {
                lemma_holds_among(rows[r as int]@, whole, sub[q].1);
            }
            lemma_loose_ids_append(before, sub@);
            assert forall|q: int| 0 <= q < added.len() implies lands_in_rows(
                jobs@,
                start_offset,
                row_height,
                (#[trigger] added[q]).1,
                added[q].0,
            ) by {
                assert(rows_view(rows@)[r as int] == rows[r as int]@);
                lemma_lands_row(
                    jobs@,
                    rows_view(rows@),
                    r as int,
                    start_offset,
                    row_height,
                    added[q].1,
                    added[q].0,
                );
            }
            lemma_rise_step(start_offset, r as int, row_height);
        }
        res.append(&mut sub);
        proof {
            assert(res@ =~= before + added);
            assert(res@.skip(n0) =~= before.skip(n0) + added);
            assert forall|q: int| 0 <= q < added.len() implies holds(
                rows_view(rows@)[r as int],
                (#[trigger] added[q]).1,
            ) && holds(jobs@, added[q].1) by {
                assert(rows_view(rows@)[r as int] == rows[r as int]@);
                assert forall|i: int| 0 <= i < rows[r as int].len() implies jobs@.contains(
                    #[trigger] rows[r as int][i],
                ) by {
                    assert(jobs@.contains(rows_view(rows@)[r as int][i]));
                }
                lemma_holds_among(rows[r as int]@, jobs@, added[q].1);
            }
            assert forall|q: int| 0 <= q < res@.skip(n0).len() implies holds(
                jobs@,
                (#[trigger] res@.skip(n0)[q]).1,
            ) by {
                if q < before.skip(n0).len() {
                    assert(res@.skip(n0)[q] == before.skip(n0)[q]);
                } else {
                    assert(res@.skip(n0)[q] == added[q - before.skip(n0).len()]);
                }
            }
            if once(jobs@) {
                lemma_row_once(rows_view(rows@), r as int);
                assert(rows_view(rows@)[r as int] == rows[r as int]@);
                lemma_row_step(rows_view(rows@), r as int, before.skip(n0), added);
            }
            assert forall|q: int| old(res)@.len() <= q < res@.len() implies lands_in_rows(
                jobs@,
                start_offset,
                row_height,
                (#[trigger] res@[q]).1,
                res@[q].0,
            ) by {
                if q >= before.len() {
                    assert(res@[q] == added[q - before.len()]);
                } else {
                    assert(res@[q] == before[q]);
                }
            }
        }
        start = start.saturating_add(row_height);
        r += 1;
    }
    proof {
        if sound(whole) {
            assert forall|i: int, id: u32|
                0 <= i < jobs.len() && #[trigger] held_by(*jobs[i], id) && id
                    != dumb_id implies loose_ids(res@).contains(id) by {
                crate::model::lemma_rows_cover(jobs@, rows_view(rows@), i);
                let (x, a) = choose|x: int, a: int|
                    #![trigger rows_view(rows@)[x][a]]
                    0 <= x < rows_view(rows@).len() && 0 <= a < rows_view(rows@)[x].len()
                        && rows_view(rows@)[x][a] == jobs[i];
                assert(rows[x]@[a] == jobs[i]);
                lemma_holds_member(rows[x]@, a, id);
            }
        }
    }
    start
}

/// Unboxes the jobs to loose offsets from `start_offset` upward. A lone
/// job of the input gets the offset; a lone box is opened. Jobs known to
/// have one size are coloured and go row above row; jobs known not to be
/// live together all go to the one offset. Of others it is found out
/// which of these they are; if neither, they are coloured size by size.
fn unbox(jobs: &JobSet, start_offset: ByteSteps, control_state: UnboxCtrl, dumb_id: u32) -> (res:
    LoosePlacement)
    ensures
        loose_of(res@, jobs@, start_offset, dumb_id),
        loose_covers(res@, jobs@, dumb_id),
        loose_lands(res@, jobs@, start_offset, control_state),
        once(jobs@) ==> loose_ids(res@).no_duplicates(),
    decreases nesting(jobs@), 2 * unknowns(control_state),
{
    let mut res: LoosePlacement = Vec::new();
    if jobs.len() == 1 {
        proof {
            lemma_nesting_contents(jobs@, 0);
            if sound(jobs@) {
                lemma_sound_member(jobs@, 0);
            }
            if once(jobs@) {
                lemma_once_contents(jobs@, 0);
            }
        }
        match &jobs[0].contents {
            None => {
                if jobs[0].id != dumb_id {
                    res.push((start_offset, jobs[0].id));
                    proof {
                        lemma_holds_member(jobs@, 0, jobs[0].id);
                        assert(loose_ids(res@)[0] == jobs[0].id);
                        lemma_lands_lone(jobs@, start_offset, control_state, jobs[0].id, start_offset);
                    }
                }
            },
            Some(c) => {
                res = unbox(c, start_offset, UnboxCtrl::Unknown, dumb_id);
                proof {
                    assert forall|q: int| 0 <= q < res.len() implies holds(
                        jobs@,
                        (#[trigger] res[q]).1,
                    ) by {
                        lemma_holds_member(jobs@, 0, res[q].1);
                    }
                    assert forall|q: int| 0 <= q < res.len() implies lands_at(
                        jobs@,
                        start_offset,
                        control_state,
                        (#[trigger] res[q]).1,
                        res[q].0,
                    ) by {
                        lemma_lands_lone(jobs@, start_offset, control_state, res[q].1, res[q].0);
                    }
                }
            },
        }
        proof {
            if sound(jobs@) {
                assert forall|id: u32| #[trigger] holds(jobs@, id) && id != dumb_id implies loose_ids(
                    res@,
                ).contains(id) by {
                    lemma_holds_found(jobs@, id);
                    let i = choose|i: int| 0 <= i < jobs.len() && held_by(*#[trigger] jobs[i], id);
                    assert(i == 0);
                }
            }
        }
        return res;
    }
    match control_state {
        UnboxCtrl::SameSizes(row_height) => {
            let proper = all_proper(jobs);
            proof {
                if sound(jobs@) {
                    assert forall|i: int| 0 <= i < jobs.len() implies jobs@.contains(
                        #[trigger] jobs[i],
                    ) by {}
                    lemma_sound_among(jobs@, jobs@);
                }
            }
            if proper {
                proof {
                    assert forall|i: int| 0 <= i < jobs.len() implies jobs@.contains(
                        #[trigger] jobs[i],
                    ) by {}
                }
                unbox_rows(
                    jobs,
                    start_offset,
                    row_height,
                    dumb_id,
                    &mut res,
                    Ghost(jobs@),
                    Ghost(start_offset),
                );
                proof {
                    assert(res@.skip(0) =~= res@);
                    assert forall|q: int| 0 <= q < res.len() implies lands_at(
                        jobs@,
                        start_offset,
                        control_state,
                        (#[trigger] res[q]).1,
                        res[q].0,
                    ) by {
                        lemma_lands_rows(jobs@, start_offset, row_height, control_state, res[q].1, res[q].0);
                    }
                    if sound(jobs@) {
                        assert forall|id: u32| #[trigger] holds(jobs@, id) && id
                            != dumb_id implies loose_ids(res@).contains(id) by {
                            lemma_holds_found(jobs@, id);
                        }
                    }
                }
            }
        },
        UnboxCtrl::NonOverlapping => {
            let mut i: usize = 0;
            while i < jobs.len()
                invariant
                    i <= jobs.len(),
                    jobs.len() != 1,
                    control_state == UnboxCtrl::NonOverlapping,
                    loose_of(res@, jobs@, start_offset, dumb_id),
                    loose_lands(res@, jobs@, start_offset, control_state),
                    once(jobs@) ==> loose_ids(res@).no_duplicates(),
                    once(jobs@) ==> forall|p: int|
                        0 <= p < res.len() ==> held_before(jobs@, i as int, (#[trigger] res[p]).1),
                    sound(jobs@) ==> forall|k: int, id: u32|
                        0 <= k < i && #[trigger] held_by(*jobs[k], id) && id != dumb_id ==> loose_ids(
                            res@,
                        ).contains(id),
                decreases jobs.len() - i,
            {
                let ghost before = res@;
                proof {
                    lemma_nesting_contents(jobs@, i as int);
                    if sound(jobs@) {
                        lemma_sound_member(jobs@, i as int);
                    }
                    if once(jobs@) {
                        lemma_once_contents(jobs@, i as int);
                    }
                }
                let ghost mut added: Seq<(ByteSteps, u32)> = Seq::empty();
                match &jobs[i].contents {
                    None => {
                        if jobs[i].id != dumb_id {
                            res.push((start_offset, jobs[i].id));
                            proof {
                                lemma_holds_member(jobs@, i as int, jobs[i as int].id);
                                added = seq![(start_offset, jobs[i as int].id)];
                                assert(loose_ids(added)[0] == jobs[i as int].id);
                            }
                        }
                    },
                    Some(c) => {
                        let mut sub = unbox(c, start_offset, UnboxCtrl::Unknown, dumb_id);
                        proof {
                            assert forall|q: int| 0 <= q < sub.len() implies holds(
                                jobs@,
                                (#[trigger] sub[q]).1,
                            ) by {
                                lemma_holds_member(jobs@, i as int, sub[q].1);
                            }
                            added = sub@;
                        }
                        res.append(&mut sub);
                    },
                }
                proof {
                    assert(res@ =~= before + added);
                    lemma_loose_ids_append(before, added);
                    if once(jobs@) {
                        assert forall|q: int| 0 <= q < added.len() implies held_in(
                            jobs@[i as int],
                            (#[trigger] added[q]).1,
                        ) by {}
                        lemma_job_step(jobs@, i as int, before, added);
                    }
                    assert forall|q: int| 0 <= q < added.len() implies lands_at(
                        jobs@,
                        start_offset,
                        control_state,
                        (#[trigger] added[q]).1,
                        added[q].0,
                    ) by {
                        lemma_lands_together(
                            jobs@,
                            start_offset,
                            control_state,
                            i as int,
                            added[q].1,
                            added[q].0,
                        );
                    }
                    assert forall|q: int| 0 <= q < res.len() implies lands_at(
                        jobs@,
                        start_offset,
                        control_state,
                        (#[trigger] res[q]).1,
                        res[q].0,
                    ) by {
                        if q >= before.len() {
                            assert(res[q] == added[q - before.len()]);
                        } else {
                            assert(res[q] == before[q]);
                        }
                    }
                    if sound(jobs@) {
                        assert forall|k: int, id: u32|
                            0 <= k < i + 1 && #[trigger] held_by(*jobs[k], id) && id
                                != dumb_id implies loose_ids(res@).contains(id) by {
                            if k < i {
                                assert(loose_ids(before).contains(id));
                            } else {
                                assert(loose_ids(added).contains(id));
                            }
                        }
                    }
                }
                i += 1;
            }
            proof {
                if sound(jobs@) {
                    assert forall|id: u32| #[trigger] holds(jobs@, id) && id
                        != dumb_id implies loose_ids(res@).contains(id) by {
                        lemma_holds_found(jobs@, id);
                    }
                }
            }
        },
        UnboxCtrl::Unknown => {
            if jobs.len() == 0 {
                return res;
            }
            let same = one_size(jobs);
            let lone = if same {
                false
            } else {
                take_turns(jobs)
            };
            if same {
                res = unbox(jobs, start_offset, UnboxCtrl::SameSizes(jobs[0].size), dumb_id);
                proof {
                    assert forall|q: int| 0 <= q < res.len() implies lands_at(
                        jobs@,
                        start_offset,
                        control_state,
                        (#[trigger] res[q]).1,
                        res[q].0,
                    ) by {
                        lemma_lands_found(
                            jobs@,
                            start_offset,
                            UnboxCtrl::SameSizes(jobs[0].size),
                            res[q].1,
                            res[q].0,
                        );
                    }
                }
            } else if lone {
                res = unbox(jobs, start_offset, UnboxCtrl::NonOverlapping, dumb_id);
                proof {
                    assert forall|q: int| 0 <= q < res.len() implies lands_at(
                        jobs@,
                        start_offset,
                        control_state,
                        (#[trigger] res[q]).1,
                        res[q].0,
                    ) by {
                        lemma_lands_found(
                            jobs@,
                            start_offset,
                            UnboxCtrl::NonOverlapping,
                            res[q].1,
                            res[q].0,
                        );
                    }
                }
            } else {
                let proper = all_proper(jobs);
                proof {
                    if sound(jobs@) {
                        assert forall|i: int| 0 <= i < jobs.len() implies jobs@.contains(
                            #[trigger] jobs[i],
                        ) by {}
                        lemma_sound_among(jobs@, jobs@);
                    }
                }
                if proper {
                    // Several sizes, live together: colour them size by size.
                    let classes = size_classes(jobs);
                    let mut start = start_offset;
                    let mut c: usize = 0;
                    proof {
                        if once(jobs@) {
                            lemma_rows_held_once(jobs@, rows_view(classes@));
                        }
                    }
                    while c < classes.len()
                        invariant
                            c <= classes.len(),
                            unknowns(control_state) == 2,
                            control_state == UnboxCtrl::Unknown,
                            start_offset <= start,
                            proper_lifetimes(jobs@),
                            jobs.len() != 1,
                            !uniform(jobs@),
                            turns(jobs@, false),
                            classes_of(jobs@, rows_view(classes@)),
                            start == class_start(rows_view(classes@), start_offset, c as int),
                            loose_lands(res@, jobs@, start_offset, control_state),
                            once(jobs@) ==> rows_held_once(rows_view(classes@)),
                            once(jobs@) ==> loose_ids(res@).no_duplicates(),
                            once(jobs@) ==> forall|p: int|
                                0 <= p < res.len() ==> held_below(rows_view(classes@), c as int, (
                                #[trigger] res[p]).1),
                            forall|c: int, i: int|
                                #![trigger classes[c][i]]
                                0 <= c < classes.len() && 0 <= i < classes[c].len()
                                    ==> jobs@.contains(classes[c][i]),
                            forall|c: int| 0 <= c < classes.len() ==> (#[trigger] classes[c]).len() > 0,
                            loose_of(res@, jobs@, start_offset, dumb_id),
                            sound(jobs@) ==> forall|x: int, a: int, id: u32|
                                #![trigger held_by(*classes[x][a], id)]
                                0 <= x < c && 0 <= a < classes[x].len() && held_by(*classes[x][a], id)
                                    && id != dumb_id ==> loose_ids(res@).contains(id),
                        decreases classes.len() - c,
                    {
                        let class = &classes[c];
                        proof {
                            assert forall|i: int| 0 <= i < class.len() implies jobs@.contains(
                                #[trigger] class[i],
                            ) by {
                                assert(jobs@.contains(classes[c as int][i]));
                            }
                            assert forall|i: int| 0 <= i < class.len() implies (#[trigger] class[i]).birth
                                < class[i].death by {
                                assert(jobs@.contains(class[i]));
                                let w = choose|w: int| 0 <= w < jobs.len() && jobs[w] == class[i];
                            }
                        }
                        let ghost before = res@;
                        let ghost from = start;
                        start = unbox_rows(
                            class,
                            start,
                            class[0].size,
                            dumb_id,
                            &mut res,
                            Ghost(jobs@),
                            Ghost(start_offset),
                        );
                        proof {
                            let view = rows_view(classes@);
                            assert(view[c as int] == class@);
                            if once(jobs@) {
                                let added = res@.skip(before.len() as int);
                                assert(res@ =~= before + added);
                                lemma_row_once(view, c as int);
                                lemma_row_step(view, c as int, before, added);
                            }
                            let k = choose|k: nat| #[trigger]
                                is_peak(class@, k, true) && start == rise(from, k as int, class[0].size);
                            lemma_peak_of(class@, k);
                            assert(start == class_start(view, start_offset, c + 1));
                            assert forall|q: int| 0 <= q < res.len() implies lands_at(
                                jobs@,
                                start_offset,
                                control_state,
                                (#[trigger] res[q]).1,
                                res[q].0,
                            ) by {
                                if q >= before.len() {
                                    lemma_lands_class(jobs@, start_offset, view, c as int, res[q].1, res[q].0);
                                } else {
                                    assert(res[q] == before[q]);
                                }
                            }
                        }
                        c += 1;
                    }
                    proof {
                        if sound(jobs@) {
                            assert forall|id: u32| #[trigger] holds(jobs@, id) && id
                                != dumb_id implies loose_ids(res@).contains(id) by {
                                lemma_holds_found(jobs@, id);
                                let i = choose|i: int|
                                    0 <= i < jobs.len() && held_by(*#[trigger] jobs[i], id);
                                let (x, a) = choose|x: int, a: int|
                                    #![trigger classes[x][a]]
                                    0 <= x < classes.len() && 0 <= a < classes[x].len()
                                        && classes[x][a] == jobs[i];
                                assert(held_by(*classes[x][a], id));
                            }
                        }
                    }
                }
            }
        },
    }
    res
}

/// The jobs in classes of equal size, the smallest size first; within a
/// class in the order of the set.
fn size_classes(jobs: &JobSet) -> (classes: Vec<JobSet>)
    ensures
        forall|c: int, i: int|
            #![trigger classes[c][i]]
            0 <= c < classes.len() && 0 <= i < classes[c].len() ==> jobs@.contains(classes[c][i]),
        forall|c: int| 0 <= c < classes.len() ==> (#[trigger] classes[c]).len() > 0,
        forall|c: int, i: int|
            #![trigger classes[c][i]]
            0 <= c < classes.len() && 0 <= i < classes[c].len() ==> classes[c][i].size
                == classes[c][0].size,
        forall|i: int|
            0 <= i < jobs.len() ==> exists|c: int, a: int|
                #![trigger classes[c][a]]
                0 <= c < classes.len() && 0 <= a < classes[c].len() && classes[c][a] == #[trigger] jobs[i],
        classes_of(jobs@, rows_view(classes@)),
        crate::model::rows_multiset(rows_view(classes@)) == jobs@.to_multiset(),
{
    let mut keys: Vec<(usize, usize)> = Vec::new();
    let mut i: usize = 0;
    while i < jobs.len()
        invariant
            i <= jobs.len(),
            keys.len() == i,
            forall|q: int| 0 <= q < i ==> #[trigger] keys[q] == (jobs[q].size, 0usize),
        decreases jobs.len() - i,
    {
        keys.push((jobs[i].size, 0));
        i += 1;
    }
    let order = crate::helpe::sort_order(&keys);
    let ghost perm = crate::helpe::as_ints(order@);
    proof {
        assert forall|w: int| 0 <= w < order.len() implies (#[trigger] order[w]) < jobs.len() by {
            assert(perm[w] == order[w]);
        }
    }
    let mut classes: Vec<JobSet> = Vec::new();
    let mut class: JobSet = Vec::new();
    let mut q: usize = 0;
    proof {
        broadcast use vstd::multiset::group_multiset_axioms;

        assert(rows_view(classes@) =~= Seq::<Seq<Arc<Job>>>::empty());
        crate::model::lemma_empty_multiset(class@);
        crate::model::lemma_empty_multiset(crate::helpe::pick(jobs@, perm.take(0)));
        assert(crate::model::rows_multiset(rows_view(classes@)).add(class@.to_multiset())
            =~= crate::helpe::pick(jobs@, perm.take(0)).to_multiset());
    }
    while q < order.len()
        invariant
            q <= order.len(),
            order.len() == jobs.len(),
            keys.len() == jobs.len(),
            forall|w: int| 0 <= w < keys.len() ==> #[trigger] keys[w] == (jobs[w].size, 0usize),
            crate::helpe::is_order_of(keys@, order@),
            forall|w: int| 0 <= w < order.len() ==> (#[trigger] order[w]) < jobs.len(),
            forall|c: int, i: int|
                #![trigger classes[c][i]]
                0 <= c < classes.len() && 0 <= i < classes[c].len() ==> jobs@.contains(classes[c][i]),
            forall|c: int| 0 <= c < classes.len() ==> (#[trigger] classes[c]).len() > 0,
            forall|c: int, i: int|
                #![trigger classes[c][i]]
                0 <= c < classes.len() && 0 <= i < classes[c].len() ==> classes[c][i].size
                    == classes[c][0].size,
            forall|i: int| 0 <= i < class.len() ==> jobs@.contains(#[trigger] class[i]),
            forall|i: int| 0 <= i < class.len() ==> (#[trigger] class[i]).size == class[0].size,
            q > 0 ==> class.len() > 0 && class[0].size == jobs[order[q - 1] as int].size,
            q == 0 ==> class.len() == 0,
            q == 0 ==> classes.len() == 0,
            perm == crate::helpe::as_ints(order@),
            crate::model::rows_multiset(rows_view(classes@)).add(class@.to_multiset()) == crate::helpe::pick(
                jobs@,
                perm.take(q as int),
            ).to_multiset(),
            forall|c: int, d: int|
                #![trigger classes[c], classes[d]]
                0 <= c < d < classes.len() ==> classes[c][0].size < classes[d][0].size,
            forall|c: int|
                0 <= c < classes.len() && class.len() > 0 ==> (#[trigger] classes[c])[0].size < class[0].size,
            forall|w: int|
                0 <= w < q ==> (exists|c: int, a: int|
                    #![trigger classes[c][a]]
                    0 <= c < classes.len() && 0 <= a < classes[c].len() && classes[c][a]
                        == jobs[#[trigger] order[w] as int]) || exists|a: int|
                    0 <= a < class.len() && #[trigger] class[a] == jobs[order[w] as int],
        decreases order.len() - q,
    {
        let index = order[q];
        let size = jobs[index].size;
        let ghost old_classes = classes@;
        let ghost old_class = class@;
        proof {
            assert(jobs@.contains(jobs@[index as int]));
        }
        let mut closed = false;
        proof {
            if q > 0 {
                assert(key_le(
                    crate::helpe::ranked(keys@, order[q - 1] as int),
                    crate::helpe::ranked(keys@, order[q as int] as int),
                ));
                assert(keys[order[q - 1] as int] == (jobs[order[q - 1] as int].size, 0usize));
                assert(keys[order[q as int] as int] == (jobs[order[q as int] as int].size, 0usize));
            }
        }
        if q > 0 && jobs[order[q - 1]].size != size {
            classes.push(class);
            class = Vec::new();
            closed = true;
        }
        class.push(share(&jobs[index]));
        proof {
            broadcast use vstd::multiset::group_multiset_axioms;

            let j = jobs@[index as int];
            let r0 = rows_view(old_classes);
            let p0 = crate::helpe::pick(jobs@, perm.take(q as int));
            let p1 = crate::helpe::pick(jobs@, perm.take(q + 1));
            assert(perm[q as int] == index);
            assert(p1 =~= p0.push(j));
            vstd::seq_lib::to_multiset_build(p0, j);
            if closed {
                assert(rows_view(classes@) =~= r0.push(old_class));
                crate::model::lemma_rows_multiset_push(r0, old_class);
                assert(class@ =~= Seq::<Arc<Job>>::empty().push(j));
                vstd::seq_lib::to_multiset_build(Seq::<Arc<Job>>::empty(), j);
                crate::model::lemma_empty_multiset(Seq::<Arc<Job>>::empty());
            } else {
                assert(rows_view(classes@) =~= r0);
                assert(class@ =~= old_class.push(j));
                vstd::seq_lib::to_multiset_build(old_class, j);
            }
            assert(crate::model::rows_multiset(rows_view(classes@)).add(class@.to_multiset()) =~= p1.to_multiset());
        }
        proof {
            assert forall|c: int, d: int|
                #![trigger classes[c], classes[d]]
                0 <= c < d < classes.len() implies classes[c][0].size < classes[d][0].size by {
                if closed && d == old_classes.len() {
                    assert(classes[c] == old_classes[c]);
                    assert(classes[d]@ == old_class);
                } else {
                    assert(classes[c] == old_classes[c] && classes[d] == old_classes[d]);
                }
            }
            assert forall|c: int| 0 <= c < classes.len() && class.len() > 0 implies (#[trigger] classes[c])[0].size
                < class[0].size by {
                if closed {
                    if c == old_classes.len() {
                        assert(classes[c]@ == old_class);
                    } else {
                        assert(classes[c] == old_classes[c]);
                    }
                } else {
                    assert(classes[c] == old_classes[c]);
                    assert(class[0] == old_class[0]);
                }
            }
        }
        proof {
            assert forall|w: int| 0 <= w < q + 1 implies (exists|c: int, a: int|
                #![trigger classes[c][a]]
                0 <= c < classes.len() && 0 <= a < classes[c].len() && classes[c][a]
                    == jobs[#[trigger] order[w] as int]) || exists|a: int|
                0 <= a < class.len() && #[trigger] class[a] == jobs[order[w] as int] by {
                if w == q {
                    assert(class[class.len() - 1] == jobs[order[w] as int]);
                } else {
                    if exists|c: int, a: int|
                        #![trigger old_classes[c][a]]
                        0 <= c < old_classes.len() && 0 <= a < old_classes[c].len()
                            && old_classes[c][a] == jobs[order[w] as int] {
                        let (c, a) = choose|c: int, a: int|
                            #![trigger old_classes[c][a]]
                            0 <= c < old_classes.len() && 0 <= a < old_classes[c].len()
                                && old_classes[c][a] == jobs[order[w] as int];
                        assert(classes[c][a] == jobs[order[w] as int]);
                    } else {
                        let a = choose|a: int|
                            0 <= a < old_class.len() && #[trigger] old_class[a] == jobs[order[w] as int];
                        if closed {
                            assert(classes[old_classes.len() as int][a] == jobs[order[w] as int]);
                        } else {
                            assert(class[a] == jobs[order[w] as int]);
                        }
                    }
                }
            }
        }
        q += 1;
    }
    let ghost old_classes = classes@;
    let ghost old_class = class@;
    let closed = class.len() > 0;
    if closed {
        classes.push(class);
    }
    proof {
        crate::helpe::lemma_covers(perm, jobs.len() as int);
        assert forall|i: int| 0 <= i < jobs.len() implies exists|c: int, a: int|
            #![trigger classes[c][a]]
            0 <= c < classes.len() && 0 <= a < classes[c].len() && classes[c][a] == #[trigger] jobs[i] by {
            assert(perm.contains(i));
            let w = choose|w: int| 0 <= w < perm.len() && perm[w] == i;
            assert(order[w] == i);
            if exists|c: int, a: int|
                #![trigger old_classes[c][a]]
                0 <= c < old_classes.len() && 0 <= a < old_classes[c].len() && old_classes[c][a]
                    == jobs[order[w] as int] {
                let (c, a) = choose|c: int, a: int|
                    #![trigger old_classes[c][a]]
                    0 <= c < old_classes.len() && 0 <= a < old_classes[c].len() && old_classes[c][a]
                        == jobs[order[w] as int];
                assert(classes[c][a] == jobs[i]);
            } else {
                let a = choose|a: int|
                    0 <= a < old_class.len() && #[trigger] old_class[a] == jobs[order[w] as int];
                assert(classes[old_classes.len() as int][a] == jobs[i]);
            }
        }
        reveal(classes_of);
        let view = rows_view(classes@);
        assert(crate::model::rows_multiset(view) == jobs@.to_multiset()) by {
            broadcast use vstd::multiset::group_multiset_axioms;

            assert(perm.take(order.len() as int) =~= perm);
            crate::helpe::lemma_permutation_multiset(jobs@, perm);
            let r0 = rows_view(old_classes);
            if closed {
                assert(view =~= r0.push(old_class));
                crate::model::lemma_rows_multiset_push(r0, old_class);
            } else {
                assert(view =~= r0);
                crate::model::lemma_empty_multiset(old_class);
                assert(crate::model::rows_multiset(r0).add(old_class.to_multiset())
                    =~= crate::model::rows_multiset(r0));
            }
        }
        assert forall|c: int, d: int|
            #![trigger view[c], view[d]]
            0 <= c < d < view.len() implies view[c][0].size < view[d][0].size by {
            if closed && d == old_classes.len() {
                assert(classes[c] == old_classes[c]);
                assert(classes[d]@ == old_class);
            } else {
                assert(classes[c] == old_classes[c] && classes[d] == old_classes[d]);
            }
        }
        assert forall|c: int, i: int|
            #![trigger view[c][i]]
            0 <= c < view.len() && 0 <= i < view[c].len() implies jobs@.contains(view[c][i]) && view[c][i].size
            == view[c][0].size by {
            assert(jobs@.contains(classes[c][i]));
        }
        assert forall|c: int| 0 <= c < view.len() implies (#[trigger] view[c]).len() > 0 by {
            assert(classes[c].len() > 0);
        }
        assert forall|i: int| 0 <= i < jobs.len() implies exists|c: int, a: int|
            #![trigger view[c][a]]
            0 <= c < view.len() && 0 <= a < view[c].len() && view[c][a] == #[trigger] jobs@[i] by {
            let (c, a) = choose|c: int, a: int|
                #![trigger classes[c][a]]
                0 <= c < classes.len() && 0 <= a < classes[c].len() && classes[c][a] == jobs[i];
            assert(view[c][a] == jobs[i]);
        }
    }
    classes
}

/// Unboxes the jobs to loose offsets from `start_offset` upward. Every
/// entry names a job of the input that the jobs hold, at the offset at
/// which unboxing leaves it; the dummy is left out, and where the jobs
/// hold no job of the input twice, none has two entries. A lone job of the
/// input gets the offset at hand, a lone box is opened there; jobs of
/// one size are coloured and go row above row, jobs that are not live
/// together all go to the one offset, and others are coloured size by
/// size, the smallest size lowest. Where every job dies after its birth
/// and no box is empty, every job of the input that the jobs hold has an
/// entry.
pub fn get_loose_placement(
    jobs: JobSet,
    start_offset: ByteSteps,
    control_state: UnboxCtrl,
    dumb_id: u32,
) -> (res: LoosePlacement)
    ensures
        loose_of(res@, jobs@, start_offset, dumb_id),
        loose_covers(res@, jobs@, dumb_id),
        loose_lands(res@, jobs@, start_offset, control_state),
        once(jobs@) ==> loose_ids(res@).no_duplicates(),
{
    unbox(&jobs, start_offset, control_state, dumb_id)
}

/// The registry does not know one of the loosely placed jobs.
pub open spec fn unknown_to(loose: Seq<(ByteSteps, u32)>, reg: Map<u32, PlacedJob>) -> bool {
    exists|q: int| 0 <= q < loose.len() && !reg.contains_key((#[trigger] loose[q]).1)
}

/// What unboxing `jobs`, which have one size, and squeezing what comes
/// out leaves behind, `loose` being what unboxing gave. A makespan
/// below `usize::MAX` is within the limit, and every job that was
/// unboxed stands where its walk has it. There is none where the
/// registry does not know a job that was unboxed, and is then left as it
/// was, or where squeezing gave up.
pub open spec fn placed_by(
    jobs: Seq<Arc<Job>>,
    ig: Map<u32, Vec<u32>>,
    reg0: Map<u32, PlacedJob>,
    reg: Map<u32, PlacedJob>,
    stamp: u32,
    lim: ByteSteps,
    dumb_id: u32,
    start: ByteSteps,
    res: ByteSteps,
    loose: Seq<(ByteSteps, u32)>,
) -> bool {
    &&& jobs.len() > 0
    &&& loose_of(loose, jobs, 0, dumb_id)
    &&& loose_covers(loose, jobs, dumb_id)
    &&& loose_lands(loose, jobs, 0, UnboxCtrl::SameSizes(jobs[0].size))
    &&& once(jobs) ==> loose_ids(loose).no_duplicates()
    &&& if res < usize::MAX {
        &&& res <= lim
        &&& squeezed(ig, reg, loose_ids(loose), stamp, start as int, res as int)
        &&& forall|w: int| 0 <= w < loose.len() ==> #[trigger] walked(loose, ig, reg, start as int, true, w)
    } else {
        (unknown_to(loose, reg0) && reg == reg0) || gave_up(loose, ig, reg, stamp, lim as int, start as int, true)
    }
}

/// Unboxes the jobs, which have one size, and squeezes what comes out,
/// first fit. Returns the makespan, or `usize::MAX` where there is
/// none, and the number of jobs that were unboxed.
pub fn unbox_and_squeeze(
    jobs: JobSet,
    ig: &InterferenceGraph,
    reg: &mut PlacedJobRegistry,
    iters_done: u32,
    makespan_lim: ByteSteps,
    dumb_id: u32,
    start_addr: ByteSteps,
) -> (res: (ByteSteps, usize))
    requires
        jobs.len() > 0,
        iters_done < u32::MAX,
        graph_fits(ig@, old(reg)@),
        registry_ok(old(reg)@),
        forall|id: u32| !#[trigger] stamped(old(reg)@, id, next_stamp(iters_done)),
    ensures
        same_jobs(old(reg)@, final(reg)@),
        forall|id: u32| #[trigger]
            final(reg)@.contains_key(id) ==> final(reg)@[id] == old(reg)@[id]
                || final(reg)@[id].times_squeezed == next_stamp(iters_done),
        exists|loose: Seq<(ByteSteps, u32)>| #[trigger]
            placed_by(
                jobs@,
                ig@,
                old(reg)@,
                final(reg)@,
                next_stamp(iters_done),
                makespan_lim,
                dumb_id,
                start_addr,
                res.0,
                loose,
            ) && res.1 == loose.len(),
{
    let ghost given = jobs@;
    let row_size = jobs[0].size;
    let loose = get_loose_placement(jobs, 0, UnboxCtrl::SameSizes(row_size), dumb_id);
    let taken = loose.len();
    let ghost unboxed = loose@;
    // A job that the registry does not know has no place to go to.
    let mut q: usize = 0;
    while q < loose.len()
        invariant
            q <= loose.len(),
            loose@ == unboxed,
            forall|w: int| 0 <= w < q ==> reg@.contains_key((#[trigger] loose[w]).1),
            reg@ == old(reg)@,
            given == jobs@,
            given.len() > 0,
            row_size == given[0].size,
            loose_of(unboxed, given, 0, dumb_id),
            loose_covers(unboxed, given, dumb_id),
            loose_lands(unboxed, given, 0, UnboxCtrl::SameSizes(row_size)),
            once(given) ==> loose_ids(unboxed).no_duplicates(),
            taken == unboxed.len(),
        decreases loose.len() - q,
    {
        if lookup(reg, loose[q].1).is_none() {
            proof {
                assert(!reg@.contains_key(unboxed[q as int].1));
                assert(unknown_to(unboxed, reg@));
                assert(placed_by(
                    given,
                    ig@,
                    old(reg)@,
                    reg@,
                    next_stamp(iters_done),
                    makespan_lim,
                    dumb_id,
                    start_addr,
                    usize::MAX,
                    unboxed,
                ));
            }
            let res = (usize::MAX, taken);
            proof {
                assert(placed_by(
                    jobs@,
                    ig@,
                    old(reg)@,
                    reg@,
                    next_stamp(iters_done),
                    makespan_lim,
                    dumb_id,
                    start_addr,
                    res.0,
                    unboxed,
                ) && res.1 == unboxed.len());
            }
            return res;
        }
        q += 1;
    }
    let makespan = do_best_fit(loose, ig, reg, iters_done, makespan_lim, true, start_addr);
    proof {
        assert(placed_by(
            given,
            ig@,
            old(reg)@,
            reg@,
            next_stamp(iters_done),
            makespan_lim,
            dumb_id,
            start_addr,
            makespan,
            unboxed,
        ));
    }
    let res = (makespan, taken);
    proof {
        assert(placed_by(
            jobs@,
            ig@,
            old(reg)@,
            reg@,
            next_stamp(iters_done),
            makespan_lim,
            dumb_id,
            start_addr,
            res.0,
            unboxed,
        ) && res.1 == unboxed.len());
    }
    res
}

impl Instance {
    /// Unboxes the instance, whose jobs have one size, and squeezes what
    /// comes out. Returns the makespan, or `usize::MAX` where there is
    /// none: with no job in the instance, with a job that the registry
    /// does not know, or where squeezing gave up, as it does above
    /// `makespan_lim`.
    pub fn place(
        self,
        ig: &InterferenceGraph,
        reg: &mut PlacedJobRegistry,
        iters_done: u32,
        makespan_lim: ByteSteps,
        dumb_id: u32,
        start_addr: ByteSteps,
    ) -> (res: ByteSteps)
        requires
            iters_done < u32::MAX,
            graph_fits(ig@, old(reg)@),
            registry_ok(old(reg)@),
            forall|id: u32| !#[trigger] stamped(old(reg)@, id, next_stamp(iters_done)),
        ensures
            same_jobs(old(reg)@, final(reg)@),
            forall|id: u32| #[trigger]
                final(reg)@.contains_key(id) ==> final(reg)@[id] == old(reg)@[id]
                    || final(reg)@[id].times_squeezed == next_stamp(iters_done),
            self.jobs.len() == 0 ==> res == usize::MAX && final(reg)@ == old(reg)@,
            self.jobs.len() > 0 ==> exists|loose: Seq<(ByteSteps, u32)>| #[trigger]
                placed_by(
                    self.jobs@,
                    ig@,
                    old(reg)@,
                    final(reg)@,
                    next_stamp(iters_done),
                    makespan_lim,
                    dumb_id,
                    start_addr,
                    res,
                    loose,
                ),
            res < usize::MAX && sound(self.jobs@) ==> forall|id: u32|
                #[trigger] holds(self.jobs@, id) && id != dumb_id ==> stamped(
                    final(reg)@,
                    id,
                    next_stamp(iters_done),
                ),
    {
        if self.jobs.len() == 0 {
            return usize::MAX;
        }
        let ghost jobs = self.jobs@;
        let (makespan, _) = unbox_and_squeeze(
            self.jobs,
            ig,
            reg,
            iters_done,
            makespan_lim,
            dumb_id,
            start_addr,
        );
        proof {
            let loose = choose|loose: Seq<(ByteSteps, u32)>| #[trigger]
                placed_by(
                    jobs,
                    ig@,
                    old(reg)@,
                    reg@,
                    next_stamp(iters_done),
                    makespan_lim,
                    dumb_id,
                    start_addr,
                    makespan,
                    loose,
                );
            if makespan < usize::MAX && sound(jobs) {
                assert forall|id: u32| #[trigger] holds(jobs, id) && id != dumb_id implies stamped(
                    reg@,
                    id,
                    next_stamp(iters_done),
                ) by {
                    assert(loose_ids(loose).contains(id));
                }
            }
        }
        makespan
    }
}

/// What squeezing without a graph leaves behind when it runs to its
/// end: the jobs of `ids`, each once, stand below `makespan`, and no two
/// of them that are live at a common moment share an address.
pub open spec fn squeezed_blind(reg: Map<u32, PlacedJob>, ids: Seq<u32>, makespan: int) -> bool {
    &&& ids.no_duplicates()
    &&& forall|q: int| 0 <= q < ids.len() ==> end_of(reg[#[trigger] ids[q]]) <= makespan
    &&& forall|a: int, b: int|
        #![trigger ids[a], ids[b]]
        0 <= a < ids.len() && 0 <= b < ids.len() && a != b && crate::model::overlap(
            *reg[ids[a]].descr,
            *reg[ids[b]].descr,
        ) ==> apart(reg[ids[a]], reg[ids[b]])
}

/// `nbs` holds, lowest first, the spans of the jobs among `taken` that
/// are live at a common moment with the job `id`.
pub open spec fn blind_spans(
    taken: Seq<u32>,
    reg: Map<u32, PlacedJob>,
    id: u32,
    nbs: Seq<(usize, usize, usize)>,
) -> bool {
    &&& forall|i: int, j: int| 0 <= i <= j < nbs.len() ==> key_le(#[trigger] nbs[i], #[trigger] nbs[j])
    &&& forall|s: int| 0 <= s < nbs.len() ==> span_taken(taken, reg, id, #[trigger] nbs[s])
    &&& forall|w: int|
        0 <= w < taken.len() && crate::model::overlap(*reg[id].descr, *reg[#[trigger] taken[w]].descr)
            ==> nbs.contains(span_key(reg, taken[w]))
}

/// `key` is the span of a job among `taken` that is live at a common
/// moment with the job `id`.
pub open spec fn span_taken(taken: Seq<u32>, reg: Map<u32, PlacedJob>, id: u32, key: (usize, usize, usize)) -> bool {
    exists|w: int|
        0 <= w < taken.len() && crate::model::overlap(*reg[id].descr, *reg[#[trigger] taken[w]].descr) && key
            == span_key(reg, taken[w])
}

/// The jobs that the first `q` steps of a run without a graph take.
pub open spec fn taken_upto(loose: Seq<(ByteSteps, u32)>, order: Seq<usize>, q: int) -> Seq<u32> {
    Seq::new(q as nat, |w: int| loose[order[w] as int].1)
}

/// One step of squeezing without a graph: the job `id`, which is not
/// among those taken, is put where the walk over those of them that are
/// live together with it ends.
pub open spec fn blind_step(
    before: Map<u32, PlacedJob>,
    after: Map<u32, PlacedJob>,
    taken: Seq<u32>,
    start: int,
    first_fit: bool,
    id: u32,
) -> bool {
    &&& before.contains_key(id)
    &&& !taken.contains(id)
    &&& exists|nbs: Seq<(usize, usize, usize)>| #[trigger]
        blind_spans(taken, before, id, nbs) && after.contains_key(id) && after == before.insert(id, after[id])
            && after[id].descr == before[id].descr && after[id].times_squeezed == before[id].times_squeezed
            && after[id].offset == fitted(
            nbs,
            before[id].descr.size as int,
            before[id].descr.alignment,
            start,
            first_fit,
        )
}

/// The step `q` of a run without a graph.
pub open spec fn blind_at(
    loose: Seq<(ByteSteps, u32)>,
    order: Seq<usize>,
    trace: Seq<Map<u32, PlacedJob>>,
    start: int,
    first_fit: bool,
    q: int,
) -> bool {
    blind_step(trace[q], trace[q + 1], taken_upto(loose, order, q), start, first_fit, loose[order[q] as int].1)
}

/// Where the job that the step `q` of a run without a graph placed ends.
pub open spec fn blind_end(
    loose: Seq<(ByteSteps, u32)>,
    order: Seq<usize>,
    trace: Seq<Map<u32, PlacedJob>>,
    q: int,
) -> int {
    end_of(trace[q + 1][loose[order[q] as int].1])
}

/// The job that is next in a run without a graph was taken before, or
/// finds no place below the end of the machine word.
pub open spec fn blind_stopped(
    loose: Seq<(ByteSteps, u32)>,
    order: Seq<usize>,
    trace: Seq<Map<u32, PlacedJob>>,
    start: int,
    first_fit: bool,
) -> bool {
    let n = trace.len() - 1;
    let id = loose[order[n] as int].1;
    let taken = taken_upto(loose, order, n);
    n < order.len() && (taken.contains(id) || exists|nbs: Seq<(usize, usize, usize)>| #[trigger]
        blind_spans(taken, trace[n], id, nbs) && (walk_overflows(
            nbs,
            trace[n][id].descr.size as int,
            trace[n][id].descr.alignment,
            start,
            first_fit,
        ) || fitted(nbs, trace[n][id].descr.size as int, trace[n][id].descr.alignment, start, first_fit)
            + trace[n][id].descr.size >= usize::MAX))
}

/// A run of squeezing without a graph: the registries `trace` lead, step
/// by step in the order of the loose offsets, from the one before to the
/// one after. A makespan below `usize::MAX` comes of a run through all
/// the jobs and is where the highest of them ends.
pub open spec fn blind_run(
    loose: Seq<(ByteSteps, u32)>,
    reg0: Map<u32, PlacedJob>,
    reg: Map<u32, PlacedJob>,
    start: int,
    first_fit: bool,
    makespan: usize,
    order: Seq<usize>,
    trace: Seq<Map<u32, PlacedJob>>,
) -> bool {
    &&& crate::helpe::is_order_of(Seq::new(loose.len(), |q: int| (loose[q].0, loose[q].1 as usize)), order)
    &&& 0 < trace.len() <= order.len() + 1
    &&& trace[0] == reg0
    &&& trace[trace.len() - 1] == reg
    &&& forall|q: int| 0 <= q < trace.len() - 1 ==> #[trigger] blind_at(loose, order, trace, start, first_fit, q)
    &&& if makespan < usize::MAX {
        &&& trace.len() == order.len() + 1
        &&& forall|q: int| 0 <= q < trace.len() - 1 ==> #[trigger] blind_end(loose, order, trace, q) <= makespan
        &&& trace.len() == 1 ==> makespan == 0
        &&& trace.len() > 1 ==> exists|q: int|
            0 <= q < trace.len() - 1 && #[trigger] blind_end(loose, order, trace, q) == makespan
    } else {
        blind_stopped(loose, order, trace, start, first_fit)
    }
}

/// One step more of a run without a graph.
pub proof fn lemma_blind_step(
    loose: Seq<(ByteSteps, u32)>,
    order: Seq<usize>,
    trace0: Seq<Map<u32, PlacedJob>>,
    after: Map<u32, PlacedJob>,
    start: int,
    first_fit: bool,
    old_max: int,
    new_max: int,
)
    requires
        0 < trace0.len() <= order.len(),
        forall|q: int| 0 <= q < trace0.len() - 1 ==> #[trigger] blind_at(loose, order, trace0, start, first_fit, q),
        forall|q: int| 0 <= q < trace0.len() - 1 ==> #[trigger] blind_end(loose, order, trace0, q) <= old_max,
        trace0.len() == 1 ==> old_max == 0,
        trace0.len() > 1 ==> exists|q: int|
            0 <= q < trace0.len() - 1 && #[trigger] blind_end(loose, order, trace0, q) == old_max,
        blind_step(
            trace0[trace0.len() - 1],
            after,
            taken_upto(loose, order, trace0.len() - 1),
            start,
            first_fit,
            loose[order[trace0.len() - 1] as int].1,
        ),
        new_max == if end_of(after[loose[order[trace0.len() - 1] as int].1]) > old_max {
            end_of(after[loose[order[trace0.len() - 1] as int].1])
        } else {
            old_max
        },
    ensures
        forall|q: int|
            0 <= q < trace0.len() ==> #[trigger] blind_at(loose, order, trace0.push(after), start, first_fit, q),
        forall|q: int| 0 <= q < trace0.len() ==> #[trigger] blind_end(loose, order, trace0.push(after), q) <= new_max,
        exists|q: int| 0 <= q < trace0.len() && #[trigger] blind_end(loose, order, trace0.push(after), q) == new_max,
{
    let trace = trace0.push(after);
    let k = trace0.len() - 1;
    assert(trace[k] == trace0[k] && trace[k + 1] == after);
    assert forall|q: int| 0 <= q < trace0.len() implies #[trigger] blind_at(
        loose,
        order,
        trace,
        start,
        first_fit,
        q,
    ) by {
        if q < k {
            assert(blind_at(loose, order, trace0, start, first_fit, q));
            assert(trace[q] == trace0[q] && trace[q + 1] == trace0[q + 1]);
        }
    }
    assert forall|q: int| 0 <= q < trace0.len() implies #[trigger] blind_end(loose, order, trace, q)
        <= new_max by {
        if q < k {
            assert(trace[q + 1] == trace0[q + 1]);
            assert(blind_end(loose, order, trace0, q) <= old_max);
        }
    }
    if end_of(after[loose[order[k] as int].1]) > old_max || k == 0 {
        assert(blind_end(loose, order, trace, k) == new_max);
    } else {
        let q = choose|q: int| 0 <= q < trace0.len() - 1 && #[trigger] blind_end(loose, order, trace0, q) == old_max;
        assert(trace[q + 1] == trace0[q + 1]);
        assert(blind_end(loose, order, trace, q) == new_max);
    }
}

/// Squeezes the loosely placed jobs together without a graph: the
/// neighbours of a job are looked for among the jobs squeezed before
/// it. Returns the makespan, or `usize::MAX` where a job is loosely
/// placed twice or would reach the end of the machine word.
pub fn do_naive_fit(
    loose: LoosePlacement,
    reg: &mut PlacedJobRegistry,
    first_fit: bool,
    start_addr: ByteSteps,
) -> (makespan: ByteSteps)
    requires
        registry_ok(old(reg)@),
        forall|k: int| 0 <= k < loose.len() ==> old(reg)@.contains_key((#[trigger] loose[k]).1),
    ensures
        same_jobs(old(reg)@, final(reg)@),
        makespan < usize::MAX ==> exists|ids: Seq<u32>| #[trigger]
            squeezed_blind(final(reg)@, ids, makespan as int) && forall|id: u32|
                ids.contains(id) <==> loose_ids(loose@).contains(id),
        exists|order: Seq<usize>, trace: Seq<Map<u32, PlacedJob>>| #[trigger]
            blind_run(loose@, old(reg)@, final(reg)@, start_addr as int, first_fit, makespan, order, trace),
{
    let ghost reg0 = reg@;
    let mut keys: Vec<(usize, usize)> = Vec::new();
    let mut k: usize = 0;
    while k < loose.len()
        invariant
            k <= loose.len(),
            keys.len() == k,
            forall|q: int| 0 <= q < k ==> #[trigger] keys[q] == (loose[q].0, loose[q].1 as usize),
        decreases loose.len() - k,
    {
        keys.push((loose[k].0, loose[k].1 as usize));
        k += 1;
    }
    proof {
        assert(keys@ =~= Seq::new(loose@.len(), |q: int| (loose[q].0, loose[q].1 as usize)));
    }
    let order = crate::helpe::sort_order(&keys);
    let ghost perm = crate::helpe::as_ints(order@);
    proof {
        assert forall|w: int| 0 <= w < order.len() implies (#[trigger] order[w]) < loose.len() by {
            assert(crate::helpe::as_ints(order@)[w] == order[w]);
        }
    }
    let mut max_address: usize = 0;
    let mut squeezed: Vec<u32> = Vec::new();
    let ghost mut trace: Seq<Map<u32, PlacedJob>> = seq![reg0];
    let mut k: usize = 0;
    while k < order.len()
        invariant
            k <= order.len(),
            crate::helpe::is_order_of(Seq::new(loose@.len(), |q: int| (loose[q].0, loose[q].1 as usize)), order@),
            trace.len() == k + 1,
            trace[0] == reg0,
            trace[k as int] == reg@,
            forall|q: int|
                0 <= q < k ==> #[trigger] blind_at(loose@, order@, trace, start_addr as int, first_fit, q),
            forall|q: int| 0 <= q < k ==> #[trigger] blind_end(loose@, order@, trace, q) <= max_address,
            k == 0 ==> max_address == 0,
            k > 0 ==> exists|q: int| 0 <= q < k && #[trigger] blind_end(loose@, order@, trace, q) == max_address,
            order.len() == loose.len(),
            reg0 == old(reg)@,
            registry_ok(reg0),
            same_jobs(reg0, reg@),
            forall|w: int| 0 <= w < order.len() ==> (#[trigger] order[w]) < loose.len(),
            forall|q: int| 0 <= q < loose.len() ==> reg0.contains_key((#[trigger] loose[q]).1),
            squeezed.len() == k,
            forall|q: int| 0 <= q < k ==> #[trigger] squeezed[q] == loose[order[q] as int].1,
            forall|q: int| 0 <= q < k ==> reg0.contains_key(#[trigger] squeezed[q]),
            squeezed_blind(reg@, squeezed@, max_address as int),
            max_address < usize::MAX,
            perm == crate::helpe::as_ints(order@),
            perm.no_duplicates(),
        decreases order.len() - k,
    {
        let id = loose[order[k]].1;
        let ghost before = reg@;
        let to_squeeze = match lookup(reg, id) {
            Some(pj) => PlacedJob { descr: share(&pj.descr), offset: 0, times_squeezed: pj.times_squeezed },
            None => { return usize::MAX; },
        };
        // The jobs squeezed so far that are live together with this one.
        let mut spans: Vec<(usize, usize, usize)> = Vec::new();
        let mut q: usize = 0;
        let mut seen = false;
        while q < squeezed.len()
            invariant
                q <= squeezed.len(),
                reg@ == before,
                same_jobs(reg0, before),
                forall|w: int| 0 <= w < squeezed.len() ==> reg0.contains_key(#[trigger] squeezed[w]),
                squeezed_blind(before, squeezed@, max_address as int),
                to_squeeze.descr == before[id].descr,
                seen <==> exists|w: int| 0 <= w < q && squeezed[w] == id,
                forall|w: int|
                    0 <= w < q && crate::model::overlap(*before[id].descr, *before[#[trigger] squeezed[w]].descr)
                        ==> spans@.contains(span_key(before, squeezed[w])),
                forall|s: int| 0 <= s < spans.len() ==> (#[trigger] spans[s]).0 <= spans[s].1,
                forall|w: int| 0 <= w < squeezed.len() ==> #[trigger] squeezed[w] == loose[order[w] as int].1,
                forall|w: int| 0 <= w < order.len() ==> (#[trigger] order[w]) < loose.len(),
                squeezed.len() <= order.len(),
                forall|s: int| 0 <= s < spans.len() ==> span_taken(squeezed@, before, id, #[trigger] spans[s]),
            decreases squeezed.len() - q,
        {
            let other = squeezed[q];
            if other == id {
                seen = true;
            }
            let ghost held = spans@;
            proof {
                assert(end_of(before[squeezed[q as int]]) <= max_address);
            }
            match lookup(reg, other) {
                Some(pj) => {
                    if pj.overlaps_with(&to_squeeze) {
                        spans.push((pj.offset, pj.offset + pj.descr.size, other as usize));
                        proof {
                            assert(spans@[held.len() as int] == span_key(before, other));
                            assert(span_taken(squeezed@, before, id, span_key(before, squeezed@[q as int])));
                            assert forall|s: int| 0 <= s < spans.len() implies span_taken(
                                squeezed@,
                                before,
                                id,
                                #[trigger] spans[s],
                            ) by {
                                if s < held.len() {
                                    assert(spans[s] == held[s]);
                                }
                            }
                        }
                    }
                },
                None => {},
            }
            proof {
                assert forall|w: int|
                    0 <= w < q + 1 && crate::model::overlap(
                        *before[id].descr,
                        *before[#[trigger] squeezed[w]].descr,
                    ) implies spans@.contains(span_key(before, squeezed[w])) by {
                    if w < q {
                        let x = choose|x: int| 0 <= x < held.len() && held[x] == span_key(before, squeezed[w]);
                        assert(spans@[x] == held[x]);
                    }
                }
            }
            q += 1;
        }
        proof {
            assert(squeezed@ =~= taken_upto(loose@, order@, k as int));
        }
        if seen {
            proof {
                let w = choose|w: int| 0 <= w < squeezed.len() && squeezed[w] == id;
                assert(squeezed@[w] == id);
                assert(taken_upto(loose@, order@, k as int).contains(id));
                assert(blind_run(
                    loose@,
                    reg0,
                    reg@,
                    start_addr as int,
                    first_fit,
                    usize::MAX,
                    order@,
                    trace,
                ));
                assert(perm[w] == order[w] && perm[k as int] == order[k as int]);
                assert(order[w] != order[k as int]);
                assert(loose_ids(loose@)[order[w] as int] == loose_ids(loose@)[order[k as int] as int]);
                assert(!loose_ids(loose@).no_duplicates());
            }
            return usize::MAX;
        }
        let ghost unsorted_spans = spans@;
        let nbs = sorted_unstable(spans);
        proof {
            lemma_same_elements(unsorted_spans, nbs@);
            assert forall|s: int| 0 <= s < nbs.len() implies (#[trigger] nbs[s]).0 <= nbs[s].1 by {
                assert(nbs@.contains(nbs[s]));
                assert(unsorted_spans.contains(nbs[s]));
                let w = choose|w: int| 0 <= w < unsorted_spans.len() && unsorted_spans[w] == nbs[s];
            }
            assert(to_squeeze.descr.alignment != Some(0usize)) by {
                assert(reg0.contains_key(id));
            }
            assert(blind_spans(squeezed@, before, id, nbs@)) by {
                assert forall|s: int| 0 <= s < nbs.len() implies span_taken(
                    squeezed@,
                    before,
                    id,
                    #[trigger] nbs[s],
                ) by {
                    assert(nbs@.contains(nbs[s]));
                    assert(unsorted_spans.contains(nbs[s]));
                    let w = choose|w: int| 0 <= w < unsorted_spans.len() && unsorted_spans[w] == nbs[s];
                    assert(span_taken(squeezed@, before, id, unsorted_spans[w]));
                }
                assert forall|w: int|
                    0 <= w < squeezed.len() && crate::model::overlap(
                        *before[id].descr,
                        *before[#[trigger] squeezed@[w]].descr,
                    ) implies nbs@.contains(span_key(before, squeezed@[w])) by {
                    assert(unsorted_spans.contains(span_key(before, squeezed[w])));
                }
            }
        }
        let offset = match fit(&nbs, &to_squeeze, start_addr, first_fit) {
            Some(o) => o,
            None => {
                proof {
                    assert(blind_stopped(loose@, order@, trace, start_addr as int, first_fit));
                    assert(blind_run(
                        loose@,
                        reg0,
                        reg@,
                        start_addr as int,
                        first_fit,
                        usize::MAX,
                        order@,
                        trace,
                    ));
                }
                return usize::MAX;
            },
        };
        let cand_makespan = match offset.checked_add(to_squeeze.descr.size) {
            Some(c) => c,
            None => {
                proof {
                    assert(walk_overflows(
                        nbs@,
                        before[id].descr.size as int,
                        before[id].descr.alignment,
                        start_addr as int,
                        first_fit,
                    ) || fitted(
                        nbs@,
                        before[id].descr.size as int,
                        before[id].descr.alignment,
                        start_addr as int,
                        first_fit,
                    ) + before[id].descr.size >= usize::MAX);
                    assert(blind_stopped(loose@, order@, trace, start_addr as int, first_fit));
                    assert(blind_run(
                        loose@,
                        reg0,
                        reg@,
                        start_addr as int,
                        first_fit,
                        usize::MAX,
                        order@,
                        trace,
                    ));
                }
                return usize::MAX;
            },
        };
        if cand_makespan == usize::MAX {
            proof {
                assert(walk_overflows(
                    nbs@,
                    before[id].descr.size as int,
                    before[id].descr.alignment,
                    start_addr as int,
                    first_fit,
                ) || fitted(
                    nbs@,
                    before[id].descr.size as int,
                    before[id].descr.alignment,
                    start_addr as int,
                    first_fit,
                ) + before[id].descr.size >= usize::MAX);
                assert(blind_stopped(loose@, order@, trace, start_addr as int, first_fit));
                assert(blind_run(
                    loose@,
                    reg0,
                    reg@,
                    start_addr as int,
                    first_fit,
                    usize::MAX,
                    order@,
                    trace,
                ));
            }
            return usize::MAX;
        }
        let placed = PlacedJob {
            descr: to_squeeze.descr,
            offset,
            times_squeezed: to_squeeze.times_squeezed,
        };
        record(reg, id, placed);
        let ghost old_max = max_address;
        if cand_makespan > max_address {
            max_address = cand_makespan;
        }
        proof {
            assert(reg@ == before.insert(id, placed));
            assert(!squeezed@.contains(id)) by {
                if squeezed@.contains(id) {
                    let w = choose|w: int| 0 <= w < squeezed.len() && squeezed@[w] == id;
                    assert(squeezed[w] == id);
                }
            }
            assert(blind_step(before, reg@, squeezed@, start_addr as int, first_fit, id)) by {
                assert(blind_spans(squeezed@, before, id, nbs@));
                assert(reg@[id] == placed);
            }
            lemma_blind_step(
                loose@,
                order@,
                trace,
                reg@,
                start_addr as int,
                first_fit,
                old_max as int,
                max_address as int,
            );
            trace = trace.push(reg@);
        }
        proof {
            let after = reg@;
            assert(after == before.insert(id, placed));
            assert(after.dom() =~= before.dom());
            let longer = squeezed@.push(id);
            assert(!squeezed@.contains(id)) by {
                if squeezed@.contains(id) {
                    let w = choose|w: int| 0 <= w < squeezed.len() && squeezed@[w] == id;
                    assert(squeezed[w] == id);
                }
            }
            assert(longer.no_duplicates()) by {
                assert forall|a: int, b: int|
                    0 <= a < longer.len() && 0 <= b < longer.len() && a != b implies longer[a]
                    != longer[b] by {
                    if a < squeezed.len() {
                        assert(squeezed@.contains(squeezed@[a]));
                    }
                    if b < squeezed.len() {
                        assert(squeezed@.contains(squeezed@[b]));
                    }
                }
            }
            assert forall|w: int| 0 <= w < longer.len() implies end_of(after[#[trigger] longer[w]])
                <= max_address by {
                if w < squeezed.len() {
                    assert(squeezed@.contains(squeezed@[w]));
                    assert(end_of(before[squeezed[w]]) <= old_max);
                }
            }
            assert forall|a: int, b: int|
                #![trigger longer[a], longer[b]]
                0 <= a < longer.len() && 0 <= b < longer.len() && a != b && crate::model::overlap(
                    *after[longer[a]].descr,
                    *after[longer[b]].descr,
                ) implies apart(after[longer[a]], after[longer[b]]) by {
                let top = squeezed.len() as int;
                if a < top && b < top {
                    assert(squeezed@.contains(squeezed@[a]));
                    assert(squeezed@.contains(squeezed@[b]));
                    assert(apart(before[squeezed[a]], before[squeezed[b]]));
                } else {
                    let w = if a < top {
                        a
                    } else {
                        b
                    };
                    assert(squeezed@.contains(squeezed@[w]));
                    assert(after[squeezed[w]] == before[squeezed[w]]);
                    assert(crate::model::overlap(*before[id].descr, *before[squeezed[w]].descr));
                    assert(unsorted_spans.contains(span_key(before, squeezed[w])));
                    assert(nbs@.contains(span_key(before, squeezed[w])));
                    let s = choose|s: int| 0 <= s < nbs.len() && nbs[s] == span_key(before, squeezed[w]);
                    assert(nbs[s].1 <= offset || offset + to_squeeze.descr.size <= nbs[s].0);
                }
            }
        }
        squeezed.push(id);
        k += 1;
    }
    proof {
        let ids = squeezed@;
        let perm = crate::helpe::as_ints(order@);
        crate::helpe::lemma_covers(perm, loose.len() as int);
        assert forall|id: u32| ids.contains(id) <==> loose_ids(loose@).contains(id) by {
            if ids.contains(id) {
                let q = choose|q: int| 0 <= q < ids.len() && ids[q] == id;
                assert(loose_ids(loose@)[order[q] as int] == id);
            }
            if loose_ids(loose@).contains(id) {
                let w = choose|w: int| 0 <= w < loose.len() && loose_ids(loose@)[w] == id;
                assert(perm.contains(w));
                let q = choose|q: int| 0 <= q < perm.len() && perm[q] == w;
                assert(ids[q] == id);
            }
        }
        assert(squeezed_blind(reg@, ids, max_address as int));
        assert(blind_run(
            loose@,
            reg0,
            reg@,
            start_addr as int,
            first_fit,
            max_address,
            order@,
            trace,
        ));
    }
    max_address
}

} // verus!
