use crate::analyze::distinct_ids;
use crate::helpe::{
    T2Control, as_ints, ascending, in_order, indices_below, is_order_of, key_le, lemma_covers,
    lemma_permutation_multiset, pick, ranked, set_insert, sort_order,
};
use crate::instance::{are_buckets, groups_view, split_at_points, Instance};
use crate::jobset::{gap_finder, interval_graph_coloring, split_ris};
use crate::job::{BoxIds, ByteSteps, Job, JobSet};
use crate::model::{
    all_within, are_boxes, contents_of, fits_box, higher_than, is_coloring, is_row,
    lemma_boxes_roomy, lemma_empty_multiset, lemma_inherit, lemma_members_of,
    lemma_ris_partition, lemma_row_load, lemma_row_members, lemma_row_within_len,
    lemma_rows_len, lemma_rows_len_take, lemma_rows_multiset_member, lemma_rows_multiset_push,
    lemma_split_height, lemma_unboxed_concat, load_at, no_higher_than, proper_lifetimes, roomy,
    rows_len, rows_multiset, rows_view, someone_live, unboxed,
};
use std::collections::BTreeSet;
use crate::strips::{
    all_groups, lemma_groups_small,
    HorStripJob, New, VertStripJob, entries, holds_value, in_order_of, index_insert, index_new,
    indexes, key_at, lemma_cut_step, lemma_paired_holds, lemma_pick_concat, pair_in, paired,
    strip_boxin, strip_cuttin, strip_jobs, strips_count, strips_fit, strips_multiset,
    tail_values,
};
use indexmap::IndexMap;
use std::sync::Arc;
use vstd::multiset::Multiset;
use vstd::prelude::*;

verus! {

/// The entries of a source that holds the jobs in the given order.
pub open spec fn source_of(jobs: Seq<Arc<Job>>, order: Seq<usize>) -> Seq<(u32, usize)> {
    Seq::new(order.len(), |w: int| (jobs[order[w] as int].id, order[w]))
}

/// A source of the jobs in the given order, from which the last in order
/// is cut first. There is none where two jobs have one identifier.
fn build_source(jobs: &JobSet, order: &Vec<usize>) -> (res: Option<IndexMap<u32, usize>>)
    requires
        order.len() == jobs.len(),
        as_ints(order@).no_duplicates(),
        indices_below(as_ints(order@), jobs.len() as int),
    ensures
        res is Some <==> distinct_ids(jobs@),
        res matches Some(m) ==> entries(m) == source_of(jobs@, order@) && indexes(entries(m), jobs@),
{
    let mut m = index_new();
    let mut k: usize = 0;
    proof {
        assert forall|w: int| 0 <= w < order.len() implies (#[trigger] order[w]) < jobs.len() by {
            assert(as_ints(order@)[w] == order[w]);
        }
    }
    while k < order.len()
        invariant
            k <= order.len(),
            order.len() == jobs.len(),
            as_ints(order@).no_duplicates(),
            forall|w: int| 0 <= w < order.len() ==> (#[trigger] order[w]) < jobs.len(),
            entries(m) == source_of(jobs@, order@.take(k as int)),
            indexes(entries(m), jobs@),
        decreases order.len() - k,
    {
        let index = order[k];
        let ghost before = entries(m);
        let was = index_insert(&mut m, jobs[index].id, index);
        if was.is_some() {
            proof {
                let p = choose|p: int| key_at(before, p, jobs[index as int].id);
                assert(as_ints(order@)[p] == order[p] && as_ints(order@)[k as int] == index);
                assert(jobs[order[p] as int].id == jobs[index as int].id);
            }
            return None;
        }
        proof {
            let e = (jobs[index as int].id, index);
            assert(entries(m) == before.push(e));
            assert(source_of(jobs@, order@.take(k + 1)) =~= before.push(e));
            assert(indexes(entries(m), jobs@)) by {
                let es = entries(m);
                assert forall|p: int, q: int|
                    0 <= p < es.len() && 0 <= q < es.len() && p != q implies (#[trigger] es[p]).0 != (
                    #[trigger] es[q]).0 by {
                    if p == k {
                        assert(!key_at(before, q, e.0));
                    } else if q == k {
                        assert(!key_at(before, p, e.0));
                    }
                }
            }
        }
        k += 1;
    }
    proof {
        assert(order@.take(order.len() as int) =~= order@);
        lemma_covers(as_ints(order@), jobs.len() as int);
        let es = entries(m);
        assert forall|i: int, j: int|
            #![trigger jobs[i], jobs[j]]
            0 <= i < jobs.len() && 0 <= j < jobs.len() && i != j implies jobs[i].id != jobs[j].id by {
            assert(as_ints(order@).contains(i));
            assert(as_ints(order@).contains(j));
            let p = choose|p: int| 0 <= p < order.len() && as_ints(order@)[p] == i;
            let q = choose|q: int| 0 <= q < order.len() && as_ints(order@)[q] == j;
            assert(es[p].0 == jobs[i].id && es[q].0 == jobs[j].id);
        }
    }
    Some(m)
}

/// The jobs of a strip, in the order of the strip.
fn strip_to_jobs<T: New>(strip: Vec<T>) -> (res: JobSet)
    ensures
        res@ == strip_jobs(strip@),
{
    let mut strip = strip;
    let ghost members = strip_jobs(strip@);
    let mut turned: JobSet = Vec::new();
    while strip.len() > 0
        invariant
            strip.len() + turned.len() == members.len(),
            forall|w: int| 0 <= w < strip.len() ==> (#[trigger] strip[w]).inner() == members[w],
            forall|w: int|
                0 <= w < turned.len() ==> #[trigger] turned[w] == members[members.len() - 1 - w],
        decreases strip.len(),
    {
        let x = strip.pop().unwrap();
        turned.push(x.get_inner_job());
    }
    let mut res: JobSet = Vec::new();
    while turned.len() > 0
        invariant
            res.len() + turned.len() == members.len(),
            forall|w: int|
                0 <= w < turned.len() ==> #[trigger] turned[w] == members[members.len() - 1 - w],
            forall|w: int| 0 <= w < res.len() ==> #[trigger] res[w] == members[w],
        decreases turned.len(),
    {
        let x = turned.pop().unwrap();
        res.push(x);
    }
    proof {
        assert(res@ =~= members);
    }
    res
}

/// The jobs of the strip are among `jobs`, so what fits a box of `jobs`
/// fits of the strip.
proof fn lemma_strip_fits<T: New>(
    jobs: Seq<Arc<Job>>,
    strip: Seq<T>,
    cut: Seq<int>,
    group_size: usize,
    box_size: usize,
)
    requires
        fits_box(jobs, group_size, box_size),
        indices_below(cut, jobs.len() as int),
        strip_jobs(strip).to_multiset() == pick(jobs, cut).to_multiset(),
    ensures
        fits_box(strip_jobs(strip), group_size, box_size),
        strip.len() == cut.len(),
{
    let members = strip_jobs(strip);
    vstd::seq_lib::to_multiset_len(members);
    vstd::seq_lib::to_multiset_len(pick(jobs, cut));
    assert forall|i: int| 0 <= i < members.len() implies (#[trigger] members[i]).size * group_size
        <= box_size by {
        assert(members.contains(members[i]));
        vstd::seq_lib::to_multiset_contains(members, members[i]);
        vstd::seq_lib::to_multiset_contains(pick(jobs, cut), members[i]);
        let w = choose|w: int| 0 <= w < pick(jobs, cut).len() && pick(jobs, cut)[w] == members[i];
        assert(0 <= cut[w] < jobs.len());
        assert(jobs[cut[w]].size * group_size <= box_size);
    }
}

/// The moment by which a source ranks a job: its death or its birth.
pub open spec fn moment(j: Job, by_death: bool) -> usize {
    if by_death {
        j.death
    } else {
        j.birth
    }
}

/// The entries name jobs whose moments go upward.
pub open spec fn rising(es: Seq<(u32, usize)>, jobs: Seq<Arc<Job>>, by_death: bool) -> bool {
    forall|p: int, q: int|
        #![trigger es[p], es[q]]
        0 <= p < q < es.len() ==> moment(*jobs[es[p].1 as int], by_death) <= moment(
            *jobs[es[q].1 as int],
            by_death,
        )
}

/// A source of jobs in the order of their moments names jobs whose
/// moments go upward.
pub proof fn lemma_source_rising(jobs: Seq<Arc<Job>>, keys: Seq<(usize, usize)>, order: Seq<usize>, by_death: bool)
    requires
        is_order_of(keys, order),
        keys.len() == jobs.len(),
        forall|i: int| 0 <= i < keys.len() ==> #[trigger] keys[i] == (moment(*jobs[i], by_death), 0usize),
    ensures
        rising(source_of(jobs, order), jobs, by_death),
{
    let es = source_of(jobs, order);
    assert forall|p: int, q: int|
        #![trigger es[p], es[q]]
        0 <= p < q < es.len() implies moment(*jobs[es[p].1 as int], by_death) <= moment(
        *jobs[es[q].1 as int],
        by_death,
    ) by {
        assert(as_ints(order)[p] == order[p] && as_ints(order)[q] == order[q]);
        assert(key_le(ranked(keys, order[p] as int), ranked(keys, order[q] as int)));
        assert(keys[order[p] as int] == (moment(*jobs[order[p] as int], by_death), 0usize));
        assert(keys[order[q] as int] == (moment(*jobs[order[q] as int], by_death), 0usize));
    }
}

/// Entries that come in the order of entries whose moments go upward
/// name jobs whose moments go upward.
pub proof fn lemma_rising_kept(
    part: Seq<(u32, usize)>,
    whole: Seq<(u32, usize)>,
    jobs: Seq<Arc<Job>>,
    by_death: bool,
)
    requires
        in_order_of(part, whole),
        rising(whole, jobs, by_death),
    ensures
        rising(part, jobs, by_death),
{
    assert forall|p: int, q: int|
        #![trigger part[p], part[q]]
        0 <= p < q < part.len() implies moment(*jobs[part[p].1 as int], by_death) <= moment(
        *jobs[part[q].1 as int],
        by_death,
    ) by {
        assert(pair_in(whole, part[p], part[q]));
        let (a, b) = choose|a: int, b: int|
            #![trigger whole[a], whole[b]]
            0 <= a < b < whole.len() && whole[a] == part[p] && whole[b] == part[q];
        assert(moment(*jobs[whole[a].1 as int], by_death) <= moment(*jobs[whole[b].1 as int], by_death));
    }
}

/// Among the jobs, those at `top` have the latest such moments of all
/// that are not at `gone`.
pub open spec fn latest(jobs: Seq<Arc<Job>>, gone: Seq<int>, top: Seq<int>, by_death: bool) -> bool {
    forall|x: int, y: int|
        #![trigger top.contains(x), jobs[y]]
        top.contains(x) && 0 <= y < jobs.len() && !gone.contains(y) && !top.contains(y) ==> moment(
            *jobs[y],
            by_death,
        ) <= moment(*jobs[x], by_death)
}

/// The jobs that are cut from the end of a source whose moments go
/// upward have the latest moments of all that the source names.
pub proof fn lemma_tail_latest(
    jobs: Seq<Arc<Job>>,
    es: Seq<(u32, usize)>,
    k: int,
    gone: Seq<int>,
    by_death: bool,
)
    requires
        rising(es, jobs, by_death),
        0 <= k <= es.len(),
        forall|v: int| 0 <= v < jobs.len() ==> (gone.contains(v) <==> !holds_value(es, v)),
    ensures
        latest(jobs, gone, tail_values(es, k), by_death),
{
    let top = tail_values(es, k);
    assert forall|x: int, y: int|
        #![trigger top.contains(x), jobs[y]]
        top.contains(x) && 0 <= y < jobs.len() && !gone.contains(y) && !top.contains(y) implies moment(
        *jobs[y],
        by_death,
    ) <= moment(*jobs[x], by_death) by {
        let w = choose|w: int| 0 <= w < top.len() && top[w] == x;
        assert(holds_value(es, y));
        let p = choose|p: int| 0 <= p < es.len() && (#[trigger] es[p]).1 == y;
        let q = es.len() - 1 - w;
        if p >= es.len() - k {
            assert(top[es.len() - 1 - p] == y);
        }
        assert(moment(*jobs[es[p].1 as int], by_death) <= moment(*jobs[es[q].1 as int], by_death));
    }
}

/// What the outer strips are to the rest: the jobs at the first
/// positions of `residue`, as many as `tv` has, are jobs at `tv`, and
/// those after them jobs at `th`; the jobs at `tv` die last of all, and
/// those at `th` are born last of the others.
pub open spec fn outer_cut(jobs: Seq<Arc<Job>>, residue: Seq<Arc<Job>>, tv: Seq<int>, th: Seq<int>) -> bool {
    &&& residue.len() == tv.len() + th.len()
    &&& forall|i: int| 0 <= i < tv.len() ==> pick(jobs, tv).contains(#[trigger] residue[i])
    &&& forall|i: int| tv.len() <= i < residue.len() ==> pick(jobs, th).contains(#[trigger] residue[i])
    &&& latest(jobs, Seq::<int>::empty(), tv, true)
    &&& latest(jobs, tv, th, false)
    &&& residue.to_multiset() == pick(jobs, tv + th).to_multiset()
}

/// The first `outer_num` jobs of `residue` die no sooner than any other
/// job, of `residue` or of `inner`; the others of `residue` are born no
/// sooner than any job of `inner`.
pub open spec fn outer_strips(residue: Seq<Arc<Job>>, inner: Multiset<Arc<Job>>, outer_num: int) -> bool {
    &&& forall|i: int, j: int|
        #![trigger residue[i], residue[j]]
        0 <= i < outer_num <= j < residue.len() ==> residue[j].death <= residue[i].death
    &&& forall|i: int, y: Arc<Job>|
        #![trigger residue[i], inner.count(y)]
        0 <= i < outer_num && i < residue.len() && inner.count(y) > 0 ==> y.death <= residue[i].death
    &&& forall|j: int, y: Arc<Job>|
        #![trigger residue[j], inner.count(y)]
        0 <= outer_num <= j < residue.len() && inner.count(y) > 0 ==> y.birth <= residue[j].birth
}

/// Where the outer strips were cut first and the jobs left were all cut
/// after them, the outer strips hold the jobs that die last and, of the
/// others, those that are born last.
pub proof fn lemma_outer_strips(
    jobs: Seq<Arc<Job>>,
    residue: Seq<Arc<Job>>,
    tv: Seq<int>,
    th: Seq<int>,
    taken: Seq<int>,
    inner: Multiset<Arc<Job>>,
)
    requires
        distinct_ids(jobs),
        outer_cut(jobs, residue, tv, th),
        taken.no_duplicates(),
        indices_below(taken, jobs.len() as int),
        taken.len() >= tv.len() + th.len(),
        taken.take((tv.len() + th.len()) as int) == tv + th,
        inner.add(residue.to_multiset()) == pick(jobs, taken).to_multiset(),
    ensures
        outer_strips(residue, inner, tv.len() as int),
{
    broadcast use vstd::multiset::group_multiset_axioms;

    let outer = tv + th;
    let picked = pick(jobs, taken);
    assert(picked.no_duplicates()) by {
        assert forall|a: int, b: int| 0 <= a < picked.len() && 0 <= b < picked.len() && a != b implies picked[a]
            != picked[b] by {
            assert(taken[a] != taken[b]);
            assert(jobs[taken[a]].id != jobs[taken[b]].id);
        }
    }
    picked.lemma_multiset_has_no_duplicates();
    // A job at `tv` is at no place of `th`, and the other way round.
    assert forall|a: int, b: int| 0 <= a < tv.len() && 0 <= b < th.len() implies tv[a] != th[b] by {
        assert(taken.take((tv.len() + th.len()) as int)[a] == outer[a]);
        assert(taken.take((tv.len() + th.len()) as int)[tv.len() + b] == outer[tv.len() + b]);
        assert(taken[a] != taken[tv.len() + b]);
    }
    // Where a job of `inner` lies: at a place that is not of the strips.
    assert forall|y: Arc<Job>| inner.count(y) > 0 implies exists|z: int|
        0 <= z < jobs.len() && #[trigger] jobs[z] == y && !tv.contains(z) && !th.contains(z) by {
        assert(picked.to_multiset().count(y) > 0);
        vstd::seq_lib::to_multiset_contains(picked, y);
        let w = choose|w: int| 0 <= w < picked.len() && picked[w] == y;
        let z = taken[w];
        assert(picked.to_multiset().count(y) <= 1);
        assert(residue.to_multiset().count(y) == 0);
        if tv.contains(z) || th.contains(z) {
            assert(outer.contains(z)) by {
                if tv.contains(z) {
                    let a = choose|a: int| 0 <= a < tv.len() && tv[a] == z;
                    assert(outer[a] == z);
                } else {
                    let b = choose|b: int| 0 <= b < th.len() && th[b] == z;
                    assert(outer[tv.len() + b] == z);
                }
            }
            let c = choose|c: int| 0 <= c < outer.len() && outer[c] == z;
            assert(pick(jobs, outer)[c] == y);
            assert(pick(jobs, outer).contains(y));
            vstd::seq_lib::to_multiset_contains(pick(jobs, outer), y);
        }
        assert(jobs[z] == y);
    }
    assert forall|i: int, j: int|
        #![trigger residue[i], residue[j]]
        0 <= i < tv.len() <= j < residue.len() implies residue[j].death <= residue[i].death by {
        let a = choose|a: int| 0 <= a < pick(jobs, tv).len() && pick(jobs, tv)[a] == residue[i];
        let b = choose|b: int| 0 <= b < pick(jobs, th).len() && pick(jobs, th)[b] == residue[j];
        assert(tv.contains(tv[a]));
        assert(outer[tv.len() + b] == th[b]);
        assert(taken.take((tv.len() + th.len()) as int)[tv.len() + b] == th[b]);
        assert(0 <= th[b] < jobs.len());
        assert(!tv.contains(th[b])) by {
            if tv.contains(th[b]) {
                let c = choose|c: int| 0 <= c < tv.len() && tv[c] == th[b];
            }
        }
        assert(moment(*jobs[th[b]], true) <= moment(*jobs[tv[a]], true));
    }
    assert forall|i: int, y: Arc<Job>|
        #![trigger residue[i], inner.count(y)]
        0 <= i < tv.len() && i < residue.len() && inner.count(y) > 0 implies y.death <= residue[i].death by {
        let a = choose|a: int| 0 <= a < pick(jobs, tv).len() && pick(jobs, tv)[a] == residue[i];
        assert(tv.contains(tv[a]));
        let z = choose|z: int|
            0 <= z < jobs.len() && #[trigger] jobs[z] == y && !tv.contains(z) && !th.contains(z);
        assert(moment(*jobs[z], true) <= moment(*jobs[tv[a]], true));
    }
    assert forall|j: int, y: Arc<Job>|
        #![trigger residue[j], inner.count(y)]
        tv.len() <= j < residue.len() && inner.count(y) > 0 implies y.birth <= residue[j].birth by {
        let b = choose|b: int| 0 <= b < pick(jobs, th).len() && pick(jobs, th)[b] == residue[j];
        assert(th.contains(th[b]));
        let z = choose|z: int|
            0 <= z < jobs.len() && #[trigger] jobs[z] == y && !tv.contains(z) && !th.contains(z);
        assert(moment(*jobs[z], false) <= moment(*jobs[th[b]], false));
    }
}

/// Every strip holds `n` jobs, but that the last may hold fewer where
/// `last_may_lack` says so; none is empty.
pub open spec fn cut_full<T: New>(strips: Seq<Vec<T>>, n: usize, last_may_lack: bool) -> bool {
    forall|s: int|
        0 <= s < strips.len() ==> 0 < (#[trigger] strips[s]).len() <= n && (strips[s].len() == n || (
        last_may_lack && s == strips.len() - 1))
}

/// The boxes hold the inner strips in groups of `h` jobs, the vertical
/// strips first. The strips were cut in turn, a vertical one first, of
/// `n` jobs each; only the strip cut last may hold fewer.
pub open spec fn inner_strips(
    boxed: Seq<Arc<Job>>,
    vert: Seq<Vec<VertStripJob>>,
    hor: Seq<Vec<HorStripJob>>,
    h: usize,
    n: usize,
) -> bool {
    &&& contents_of(boxed) == all_groups(vert, h as nat) + all_groups(hor, h as nat)
    &&& hor.len() == vert.len() || vert.len() == hor.len() + 1
    &&& cut_full(vert, n, hor.len() < vert.len())
    &&& cut_full(hor, n, hor.len() == vert.len())
}

/// How many jobs an inner strip is to hold.
pub open spec fn inner_size(h: usize, inner_mult: usize) -> usize {
    if h * inner_mult <= usize::MAX {
        (h * inner_mult) as usize
    } else {
        usize::MAX
    }
}

/// Carves the jobs into strips and boxes the inner ones. With no more
/// than twice `h * outer_mult` jobs, or with two jobs of one identifier,
/// nothing is boxed and all the jobs come back unresolved. Otherwise the jobs that die last are cut off as
/// the outer vertical strip, then the jobs that are born last as the
/// outer horizontal strip, `h * outer_mult` jobs each: these come back
/// unresolved. What is left is cut into inner strips of up to
/// `h * inner_mult` jobs, a vertical and a horizontal one in turn, and
/// every inner strip is boxed in groups of `h` jobs, the boxes of size
/// `h_real`, so that no box holds more than `h` jobs; only the strip
/// cut last may hold fewer than the others.
pub fn lemma_1(
    input: JobSet,
    h: ByteSteps,
    h_real: ByteSteps,
    outer_mult: ByteSteps,
    inner_mult: ByteSteps,
    ids: &mut BoxIds,
) -> (res: (Option<JobSet>, JobSet))
    requires
        h >= 1,
        inner_mult >= 1,
        fits_box(input@, h, h_real),
        old(ids).left() >= input.len(),
    ensures
        res.0 is None <==> input.len() <= 2 * h * outer_mult || !distinct_ids(input@),
        res.0 is None ==> res.1@ == input@ && final(ids).left() == old(ids).left(),
        res.0 matches Some(boxed) ==> {
            &&& are_boxes(boxed@, h_real)
            &&& unboxed(boxed@).add(res.1@.to_multiset()) == input@.to_multiset()
            &&& res.1.len() == 2 * h * outer_mult
            &&& boxed.len() + res.1.len() <= input.len()
            &&& final(ids).left() == old(ids).left() - boxed.len()
            &&& outer_strips(res.1@, unboxed(boxed@), h * outer_mult)
            &&& forall|b: int|
                0 <= b < boxed.len() ==> 0 < (#[trigger] contents_of(boxed@)[b]).len() <= h
            &&& exists|vert: Seq<Vec<VertStripJob>>, hor: Seq<Vec<HorStripJob>>| #[trigger]
                inner_strips(boxed@, vert, hor, h, inner_size(h, inner_mult))
        },
{
    let n = input.len();
    let outer_num = match h.checked_mul(outer_mult) {
        Some(v) => v,
        None => {
            proof {
                assert(2 * h * outer_mult >= h * outer_mult) by (nonlinear_arith);
            }
            return (None, input);
        },
    };
    let two_outer = match outer_num.checked_mul(2) {
        Some(v) => v,
        None => {
            proof {
                assert(2 * h * outer_mult == 2 * outer_num) by (nonlinear_arith)
                    requires
                        outer_num == h * outer_mult,
                ;
            }
            return (None, input);
        },
    };
    proof {
        assert(2 * h * outer_mult == two_outer) by (nonlinear_arith)
            requires
                two_outer == 2 * outer_num,
                outer_num == h * outer_mult,
        ;
    }
    if n <= two_outer {
        return (None, input);
    }
    // One source from which the jobs that die last are cut first, one
    // from which the jobs that are born last are.
    let mut by_death: Vec<(usize, usize)> = Vec::new();
    let mut by_birth: Vec<(usize, usize)> = Vec::new();
    let mut i: usize = 0;
    while i < n
        invariant
            i <= n,
            n == input.len(),
            by_death.len() == i,
            by_birth.len() == i,
            forall|q: int| 0 <= q < i ==> #[trigger] by_death[q] == (moment(*input[q], true), 0usize),
            forall|q: int| 0 <= q < i ==> #[trigger] by_birth[q] == (moment(*input[q], false), 0usize),
        decreases n - i,
    {
        by_death.push((input[i].death, 0));
        by_birth.push((input[i].birth, 0));
        i += 1;
    }
    let vert_order = sort_order(&by_death);
    let hor_order = sort_order(&by_birth);
    let mut vert_source = match build_source(&input, &vert_order) {
        Some(m) => m,
        None => { return (None, input); },
    };
    let mut hor_source = match build_source(&input, &hor_order) {
        Some(m) => m,
        None => { return (None, input); },
    };
    let ghost jobs = input@;
    let ghost mut taken: Seq<int> = Seq::empty();
    let ghost hor_all = entries(hor_source);
    proof {
        lemma_source_rising(jobs, by_death@, vert_order@, true);
        lemma_source_rising(jobs, by_birth@, hor_order@, false);
        let v = entries(vert_source);
        let w = entries(hor_source);
        lemma_covers(as_ints(vert_order@), n as int);
        lemma_covers(as_ints(hor_order@), n as int);
        assert(paired(v, w)) by {
            assert forall|p: int| 0 <= p < v.len() implies w.contains(#[trigger] v[p]) by {
                assert(as_ints(vert_order@)[p] == vert_order[p]);
                assert(as_ints(hor_order@).contains(vert_order[p] as int));
                let q = choose|q: int|
                    0 <= q < hor_order.len() && as_ints(hor_order@)[q] == vert_order[p];
                assert(w[q] == v[p]);
            }
            assert forall|p: int| 0 <= p < w.len() implies v.contains(#[trigger] w[p]) by {
                assert(as_ints(hor_order@)[p] == hor_order[p]);
                assert(as_ints(vert_order@).contains(hor_order[p] as int));
                let q = choose|q: int|
                    0 <= q < vert_order.len() && as_ints(vert_order@)[q] == hor_order[p];
                assert(v[q] == w[p]);
            }
        }
        assert forall|x: int| 0 <= x < n implies (taken.contains(x) <==> !holds_value(v, x)) by {
            assert(as_ints(vert_order@).contains(x));
            let q = choose|q: int| 0 <= q < vert_order.len() && as_ints(vert_order@)[q] == x;
            assert(v[q].1 == x);
        }
        assert(pick(jobs, taken) =~= Seq::<Arc<Job>>::empty());
    }
    // The outer strips.
    let ghost v0 = entries(vert_source);
    let outer_vert: Vec<VertStripJob> = strip_cuttin(
        &mut vert_source,
        &mut hor_source,
        outer_num,
        &input,
    );
    let ghost tv = tail_values(v0, outer_num as int);
    proof {
        lemma_tail_latest(jobs, v0, outer_num as int, taken, true);
        assert(taken =~= Seq::<int>::empty());
        lemma_rising_kept(entries(hor_source), hor_all, jobs, false);
        lemma_cut_step(jobs, v0, entries(vert_source), outer_num as int, taken);
        lemma_pick_concat(jobs, taken, tail_values(v0, outer_num as int));
        taken = taken + tail_values(v0, outer_num as int);
        assert(taken =~= tv);
        assert forall|x: int| 0 <= x < n implies (taken.contains(x) <==> !holds_value(
            entries(hor_source),
            x,
        )) by {
            lemma_paired_holds(entries(vert_source), entries(hor_source), x);
        }
    }
    let ghost h0 = entries(hor_source);
    let ghost taken_vert = taken;
    let outer_hor: Vec<HorStripJob> = strip_cuttin(
        &mut hor_source,
        &mut vert_source,
        outer_num,
        &input,
    );
    let ghost th = tail_values(h0, outer_num as int);
    proof {
        lemma_tail_latest(jobs, h0, outer_num as int, tv, false);
        lemma_cut_step(jobs, h0, entries(hor_source), outer_num as int, taken);
        lemma_pick_concat(jobs, taken, tail_values(h0, outer_num as int));
        taken = taken + tail_values(h0, outer_num as int);
        assert(taken =~= tv + th);
        assert forall|x: int| 0 <= x < n implies (taken.contains(x) <==> !holds_value(
            entries(vert_source),
            x,
        )) by {
            lemma_paired_holds(entries(hor_source), entries(vert_source), x);
        }
    }
    let total = n - two_outer;
    let inner_num = match h.checked_mul(inner_mult) {
        Some(v) => v,
        None => usize::MAX,
    };
    proof {
        assert(inner_num >= 1) by (nonlinear_arith)
            requires
                h >= 1,
                inner_mult >= 1,
                inner_num == h * inner_mult || inner_num == usize::MAX,
        ;
    }
    let mut unresolved = strip_to_jobs(outer_vert);
    let mut outer_rest = strip_to_jobs(outer_hor);
    let ghost from_vert = unresolved@;
    let ghost from_hor = outer_rest@;
    proof {
        vstd::seq_lib::lemma_multiset_commutative(unresolved@, outer_rest@);
    }
    unresolved.append(&mut outer_rest);
    proof {
        assert(unresolved@ =~= from_vert + from_hor);
        assert forall|i: int| 0 <= i < tv.len() implies pick(jobs, tv).contains(#[trigger] unresolved@[i]) by {
            assert(from_vert[i] == unresolved@[i]);
            assert(from_vert.contains(from_vert[i]));
            vstd::seq_lib::to_multiset_contains(from_vert, from_vert[i]);
            vstd::seq_lib::to_multiset_contains(pick(jobs, tv), from_vert[i]);
        }
        assert forall|i: int| tv.len() <= i < unresolved@.len() implies pick(jobs, th).contains(
            #[trigger] unresolved@[i],
        ) by {
            assert(from_hor[i - tv.len()] == unresolved@[i]);
            assert(from_hor.contains(from_hor[i - tv.len()]));
            vstd::seq_lib::to_multiset_contains(from_hor, from_hor[i - tv.len()]);
            vstd::seq_lib::to_multiset_contains(pick(jobs, th), from_hor[i - tv.len()]);
        }
    }
    let mut inner_jobs: usize = 0;
    let mut inner_vert: Vec<Vec<VertStripJob>> = Vec::new();
    let mut inner_hor: Vec<Vec<HorStripJob>> = Vec::new();
    proof {
        assert(unresolved@.to_multiset() =~= pick(jobs, taken).to_multiset());
        assert(strips_multiset(inner_vert@).add(strips_multiset(inner_hor@)).add(
            unresolved@.to_multiset(),
        ) =~= pick(jobs, taken).to_multiset()) by {
            broadcast use vstd::multiset::group_multiset_axioms;

        }
        assert(latest(jobs, Seq::<int>::empty(), tv, true));
        assert(outer_cut(jobs, unresolved@, tv, th));
        assert(taken.take(two_outer as int) =~= tv + th);
    }
    while inner_jobs < total
        invariant
            inner_jobs <= total,
            total == n - two_outer,
            n == input.len(),
            jobs == input@,
            inner_num >= 1,
            h >= 1,
            fits_box(jobs, h, h_real),
            indexes(entries(vert_source), jobs),
            indexes(entries(hor_source), jobs),
            paired(entries(vert_source), entries(hor_source)),
            entries(vert_source).len() == total - inner_jobs,
            taken.no_duplicates(),
            indices_below(taken, n as int),
            taken.len() == two_outer + inner_jobs,
            forall|x: int|
                0 <= x < n ==> (taken.contains(x) <==> !holds_value(entries(vert_source), x)),
            strips_multiset(inner_vert@).add(strips_multiset(inner_hor@)).add(
                unresolved@.to_multiset(),
            ) == pick(jobs, taken).to_multiset(),
            strips_fit(inner_vert@, h, h_real),
            strips_fit(inner_hor@, h, h_real),
            strips_count(inner_vert@) + strips_count(inner_hor@) == inner_jobs,
            inner_num == inner_size(h, inner_mult),
            inner_hor.len() == inner_vert.len() || (inner_vert.len() == inner_hor.len() + 1 && inner_jobs
                == total),
            cut_full(inner_vert@, inner_num, inner_hor.len() < inner_vert.len()),
            cut_full(inner_hor@, inner_num, inner_hor.len() == inner_vert.len() && inner_jobs == total),
            unresolved.len() == two_outer,
            distinct_ids(jobs),
            outer_cut(jobs, unresolved@, tv, th),
            tv.len() + th.len() == two_outer,
            tv.len() == outer_num,
            taken.take(two_outer as int) == tv + th,
        decreases total - inner_jobs,
    {
        let ghost v1 = entries(vert_source);
        let ghost old_vert = inner_vert@;
        let vert_strip: Vec<VertStripJob> = strip_cuttin(
            &mut vert_source,
            &mut hor_source,
            inner_num,
            &input,
        );
        proof {
            let cut = tail_values(v1, vert_strip.len() as int);
            lemma_cut_step(jobs, v1, entries(vert_source), vert_strip.len() as int, taken);
            lemma_pick_concat(jobs, taken, cut);
            assert(indices_below(cut, n as int)) by {
                assert forall|k: int| 0 <= k < cut.len() implies 0 <= #[trigger] cut[k] < n by {
                    assert(v1[v1.len() - 1 - k].1 < n);
                }
            }
            lemma_strip_fits(jobs, vert_strip@, cut, h, h_real);
            let ghost so_far = taken;
            taken = taken + cut;
            assert(taken.take(two_outer as int) =~= so_far.take(two_outer as int));
            assert forall|x: int| 0 <= x < n implies (taken.contains(x) <==> !holds_value(
                entries(hor_source),
                x,
            )) by {
                lemma_paired_holds(entries(vert_source), entries(hor_source), x);
            }
        }
        inner_jobs = inner_jobs + vert_strip.len();
        let ghost strip_ms = strip_jobs(vert_strip@).to_multiset();
        let ghost cut_len = vert_strip.len();
        inner_vert.push(vert_strip);
        proof {
            assert(v1.len() == total - (inner_jobs - cut_len));
            assert(cut_full(inner_vert@, inner_num, inner_jobs == total)) by {
                assert forall|s: int| 0 <= s < inner_vert.len() implies 0 < (#[trigger] inner_vert@[s]).len()
                    <= inner_num && (inner_vert@[s].len() == inner_num || (inner_jobs == total && s
                    == inner_vert.len() - 1)) by {
                    if s < old_vert.len() {
                        assert(inner_vert@[s] == old_vert[s]);
                    }
                }
            }
            assert(inner_vert@.drop_last() =~= old_vert);
            lemma_move_vert(
                strips_multiset(old_vert),
                strip_ms,
                strips_multiset(inner_hor@),
                unresolved@.to_multiset(),
            );
            assert forall|s: int| 0 <= s < inner_vert.len() implies fits_box(
                strip_jobs((#[trigger] inner_vert[s])@),
                h,
                h_real,
            ) by {
                if s < old_vert.len() {
                    assert(inner_vert[s] == old_vert[s]);
                }
            }
        }
        if inner_jobs < total {
            let ghost h1 = entries(hor_source);
            let ghost old_hor = inner_hor@;
            let hor_strip: Vec<HorStripJob> = strip_cuttin(
                &mut hor_source,
                &mut vert_source,
                inner_num,
                &input,
            );
            proof {
                let cut = tail_values(h1, hor_strip.len() as int);
                lemma_cut_step(jobs, h1, entries(hor_source), hor_strip.len() as int, taken);
                lemma_pick_concat(jobs, taken, cut);
                assert(indices_below(cut, n as int)) by {
                assert forall|k: int| 0 <= k < cut.len() implies 0 <= #[trigger] cut[k] < n by {
                    assert(h1[h1.len() - 1 - k].1 < n);
                }
            }
            lemma_strip_fits(jobs, hor_strip@, cut, h, h_real);
                let ghost so_far = taken;
                taken = taken + cut;
                assert(taken.take(two_outer as int) =~= so_far.take(two_outer as int));
                assert forall|x: int| 0 <= x < n implies (taken.contains(x) <==> !holds_value(
                    entries(vert_source),
                    x,
                )) by {
                    lemma_paired_holds(entries(hor_source), entries(vert_source), x);
                }
            }
            inner_jobs = inner_jobs + hor_strip.len();
            let ghost strip_ms = strip_jobs(hor_strip@).to_multiset();
            let ghost cut_len = hor_strip.len();
            inner_hor.push(hor_strip);
            proof {
                assert(h1.len() == entries(vert_source).len() + cut_len);
                assert(cut_full(inner_hor@, inner_num, inner_jobs == total)) by {
                    assert forall|s: int| 0 <= s < inner_hor.len() implies 0 < (#[trigger] inner_hor@[s]).len()
                        <= inner_num && (inner_hor@[s].len() == inner_num || (inner_jobs == total && s
                        == inner_hor.len() - 1)) by {
                        if s < old_hor.len() {
                            assert(inner_hor@[s] == old_hor[s]);
                        }
                    }
                }
                assert(inner_hor@.drop_last() =~= old_hor);
                lemma_move_hor(
                    strips_multiset(inner_vert@),
                    strips_multiset(old_hor),
                    strip_ms,
                    unresolved@.to_multiset(),
                );
                assert forall|s: int| 0 <= s < inner_hor.len() implies fits_box(
                    strip_jobs((#[trigger] inner_hor[s])@),
                    h,
                    h_real,
                ) by {
                    if s < old_hor.len() {
                        assert(inner_hor[s] == old_hor[s]);
                    }
                }
            }
        }
    }
    proof {
        lemma_permutation_multiset(jobs, taken);
    }
    let ghost inner_ms = strips_multiset(inner_vert@).add(strips_multiset(inner_hor@));
    let ghost all_vert = inner_vert@;
    let ghost all_hor = inner_hor@;
    let boxed = strip_boxin(inner_vert, inner_hor, h, h_real, ids);
    proof {
        lemma_outer_strips(jobs, unresolved@, tv, th, taken, inner_ms);
        assert(tv.len() == h * outer_mult);
        assert(unboxed(boxed@) == inner_ms);
        assert(outer_strips(unresolved@, unboxed(boxed@), h * outer_mult));
        assert(are_boxes(boxed@, h_real));
        assert(unboxed(boxed@).add(unresolved@.to_multiset()) == input@.to_multiset());
        assert(unresolved.len() == 2 * h * outer_mult);
        assert(boxed.len() + unresolved.len() <= input.len());
        assert(distinct_ids(input@));
        assert(input.len() > 2 * h * outer_mult);
        assert(inner_strips(boxed@, all_vert, all_hor, h, inner_size(h, inner_mult)));
        assert(ids.left() == old(ids).left() - boxed.len());
        lemma_groups_small(all_vert, h as nat);
        lemma_groups_small(all_hor, h as nat);
        assert forall|b: int| 0 <= b < boxed.len() implies 0 < (#[trigger] contents_of(boxed@)[b]).len()
            <= h by {
            let v = all_groups(all_vert, h as nat);
            let w = all_groups(all_hor, h as nat);
            assert(contents_of(boxed@) == v + w);
            if b < v.len() {
                assert((v + w)[b] == v[b]);
            } else {
                assert((v + w)[b] == w[b - v.len()]);
            }
        }
    }
    let ghost bx = boxed@;
    let out = (Some(boxed), unresolved);
    proof {
        assert(out.0 is Some && out.0->0@ == bx);
        assert(exists|vert: Seq<Vec<VertStripJob>>, hor: Seq<Vec<HorStripJob>>| #[trigger]
            inner_strips(bx, vert, hor, h, inner_size(h, inner_mult))) by {
            assert(inner_strips(bx, all_vert, all_hor, h, inner_size(h, inner_mult)));
        }
        assert forall|b: int| 0 <= b < bx.len() implies 0 < (#[trigger] contents_of(bx)[b]).len() <= h by {}
    }
    out
}

/// The sum of four multisets, the second moved in with the first.
proof fn lemma_move_vert<A>(v: Multiset<A>, s: Multiset<A>, h: Multiset<A>, u: Multiset<A>)
    ensures
        v.add(s).add(h).add(u) == v.add(h).add(u).add(s),
{
    broadcast use vstd::multiset::group_multiset_axioms;

    assert(v.add(s).add(h).add(u) =~= v.add(h).add(u).add(s));
}

/// The sum of four multisets, the third moved in with the second.
proof fn lemma_move_hor<A>(v: Multiset<A>, h: Multiset<A>, s: Multiset<A>, u: Multiset<A>)
    ensures
        v.add(h.add(s)).add(u) == v.add(h).add(u).add(s),
{
    broadcast use vstd::multiset::group_multiset_axioms;

    assert(v.add(h.add(s)).add(u) =~= v.add(h).add(u).add(s));
}

/// Says whether some job is live at moment `t`.
fn anyone_live(jobs: &JobSet, t: ByteSteps) -> (r: bool)
    ensures
        r == someone_live(jobs@, t as int),
{
    let mut i: usize = 0;
    while i < jobs.len()
        invariant
            i <= jobs.len(),
            forall|k: int| 0 <= k < i ==> !(#[trigger] jobs[k]).live_at(t as int),
        decreases jobs.len() - i,
    {
        if jobs[i].is_live_at(t) {
            return true;
        }
        i += 1;
    }
    false
}

/// Carves every group into strips and boxes the inner ones. Returns the
/// boxes, and the jobs that stay unresolved.
fn box_groups(
    groups: Vec<JobSet>,
    h: ByteSteps,
    h_real: ByteSteps,
    outer_mult: ByteSteps,
    inner_mult: ByteSteps,
    ids: &mut BoxIds,
) -> (res: (JobSet, JobSet))
    requires
        h >= 1,
        inner_mult >= 1,
        forall|g: int| 0 <= g < groups.len() ==> fits_box((#[trigger] groups[g])@, h, h_real),
        old(ids).left() >= rows_len(rows_view(groups@)),
    ensures
        are_boxes(res.0@, h_real),
        unboxed(res.0@).add(res.1@.to_multiset()) == rows_multiset(rows_view(groups@)),
        res.0.len() + res.1.len() <= rows_len(rows_view(groups@)),
        final(ids).left() == old(ids).left() - res.0.len(),
{
    let mut groups = groups;
    let ghost rows = rows_view(groups@);
    let mut res_jobs: JobSet = Vec::new();
    let mut all_unresolved: JobSet = Vec::new();
    let mut g: usize = 0;
    proof {
        assert(rows.take(0) =~= Seq::<Seq<Arc<Job>>>::empty());
        assert(contents_of(res_jobs@) =~= Seq::<Seq<Arc<Job>>>::empty());
        lemma_empty_multiset(all_unresolved@);
        assert(unboxed(res_jobs@).add(all_unresolved@.to_multiset()) =~= rows_multiset(rows.take(0))) by {
            broadcast use vstd::multiset::group_multiset_axioms;

        }
    }
    while g < groups.len()
        invariant
            g <= groups.len(),
            h >= 1,
            inner_mult >= 1,
            groups.len() == rows.len(),
            forall|w: int| g <= w < groups.len() ==> (#[trigger] groups[w])@ == rows[w],
            forall|w: int| 0 <= w < rows.len() ==> fits_box(#[trigger] rows[w], h, h_real),
            are_boxes(res_jobs@, h_real),
            unboxed(res_jobs@).add(all_unresolved@.to_multiset()) == rows_multiset(rows.take(g as int)),
            res_jobs.len() + all_unresolved.len() <= rows_len(rows.take(g as int)),
            ids.left() == old(ids).left() - res_jobs.len(),
            old(ids).left() >= rows_len(rows),
        decreases groups.len() - g,
    {
        let mut group: JobSet = Vec::new();
        std::mem::swap(&mut group, &mut groups[g]);
        let ghost members = group@;
        let ghost boxes_before = res_jobs@;
        let ghost left_before = all_unresolved@;
        proof {
            assert(members == rows[g as int]);
            assert(rows.take(g + 1).drop_last() =~= rows.take(g as int));
            lemma_rows_len_take(rows, g as int);
            lemma_rows_len_take(rows, g + 1);
        }
        let (boxed, mut unresolved) = lemma_1(group, h, h_real, outer_mult, inner_mult, ids);
        let ghost left_new = unresolved@;
        proof {
            vstd::seq_lib::lemma_multiset_commutative(left_before, left_new);
        }
        all_unresolved.append(&mut unresolved);
        match boxed {
            Some(b) => {
                let mut b = b;
                proof {
                    lemma_unboxed_concat(boxes_before, b@);
                    broadcast use vstd::multiset::group_multiset_axioms;

                    assert(unboxed(boxes_before + b@).add((left_before + left_new).to_multiset())
                        =~= unboxed(boxes_before).add(left_before.to_multiset()).add(
                        unboxed(b@).add(left_new.to_multiset()),
                    ));
                }
                res_jobs.append(&mut b);
            },
            None => {
                proof {
                    broadcast use vstd::multiset::group_multiset_axioms;

                    assert(unboxed(boxes_before).add((left_before + left_new).to_multiset())
                        =~= unboxed(boxes_before).add(left_before.to_multiset()).add(
                        left_new.to_multiset(),
                    ));
                }
            },
        }
        g += 1;
    }
    proof {
        assert(rows.take(rows.len() as int) =~= rows);
    }
    (res_jobs, all_unresolved)
}

/// Colours the unresolved jobs and boxes the rows, `h` rows to a box of
/// size `h_real`. Returns the boxes, and the ends of the gaps that the
/// rows leave within the bounding interval.
fn box_rows(
    all_unresolved: JobSet,
    h: ByteSteps,
    h_real: ByteSteps,
    bounds: (ByteSteps, ByteSteps),
    ids: &mut BoxIds,
) -> (res: (JobSet, BTreeSet<ByteSteps>))
    requires
        h >= 1,
        proper_lifetimes(all_unresolved@),
        fits_box(all_unresolved@, h, h_real),
        old(ids).left() >= all_unresolved.len(),
    ensures
        are_boxes(res.0@, h_real),
        unboxed(res.0@) == all_unresolved@.to_multiset(),
        res.0.len() <= all_unresolved.len(),
        final(ids).left() == old(ids).left() - res.0.len(),
{
    let ghost all = all_unresolved@;
    let mut igc_rows = interval_graph_coloring(all_unresolved);
    let ghost rows = rows_view(igc_rows@);
    let mut points_to_allocate: BTreeSet<ByteSteps> = BTreeSet::new();
    let mut res_jobs: JobSet = Vec::new();
    let mut jobs_buf: JobSet = Vec::new();
    let mut in_buf: usize = 0;
    let mut r: usize = 0;
    proof {
        lemma_row_members(all, rows);
        lemma_rows_len(rows);
        vstd::seq_lib::to_multiset_len(all);
        assert(rows.take(0) =~= Seq::<Seq<Arc<Job>>>::empty());
        assert(contents_of(res_jobs@) =~= Seq::<Seq<Arc<Job>>>::empty());
        lemma_empty_multiset(jobs_buf@);
        assert(unboxed(res_jobs@).add(jobs_buf@.to_multiset()) =~= rows_multiset(rows.take(0))) by {
            broadcast use vstd::multiset::group_multiset_axioms;

        }
        assert forall|t: int| #[trigger] load_at(jobs_buf@, t) * h <= in_buf * h_real by {
            crate::model::lemma_load_within_total(jobs_buf@, t);
            crate::model::lemma_sum_if_none(jobs_buf@, |i: int| false, false);
            crate::model::lemma_sum_if_same(jobs_buf@, |i: int| true, |i: int| false, false);
            assert(load_at(jobs_buf@, t) * h == 0) by (nonlinear_arith)
                requires
                    load_at(jobs_buf@, t) == 0,
            ;
            assert(in_buf * h_real == 0) by (nonlinear_arith)
                requires
                    in_buf == 0,
            ;
        }
    }
    while r < igc_rows.len()
        invariant
            r <= igc_rows.len(),
            h >= 1,
            igc_rows.len() == rows.len(),
            forall|w: int| r <= w < igc_rows.len() ==> (#[trigger] igc_rows[w])@ == rows[w],
            is_coloring(all, rows),
            proper_lifetimes(all),
            fits_box(all, h, h_real),
            forall|x: int, a: int|
                #![trigger rows[x][a]]
                0 <= x < rows.len() && 0 <= a < rows[x].len() ==> all.contains(rows[x][a]),
            rows_len(rows) == all.len(),
            r <= rows_len(rows.take(r as int)),
            in_buf < h,
            in_buf <= r,
            in_buf == 0 <==> jobs_buf.len() == 0,
            forall|t: int| #[trigger] load_at(jobs_buf@, t) * h <= in_buf * h_real,
            are_boxes(res_jobs@, h_real),
            unboxed(res_jobs@).add(jobs_buf@.to_multiset()) == rows_multiset(rows.take(r as int)),
            res_jobs.len() + in_buf <= r,
            ids.left() == old(ids).left() - res_jobs.len(),
            old(ids).left() >= all.len(),
        decreases igc_rows.len() - r,
    {
        let mut row: JobSet = Vec::new();
        std::mem::swap(&mut row, &mut igc_rows[r]);
        let ghost members = row@;
        let ghost held = jobs_buf@;
        proof {
            assert(members == rows[r as int]);
            assert(rows.take(r + 1).drop_last() =~= rows.take(r as int));
            lemma_rows_len_take(rows, r as int);
            lemma_rows_len_take(rows, r + 1);
            assert(is_row(members)) by {
                assert forall|a: int| 0 <= a < members.len() implies (#[trigger] members[a]).birth
                    < members[a].death by {
                    assert(all.contains(rows[r as int][a]));
                    let w = choose|w: int| 0 <= w < all.len() && all[w] == members[a];
                }
                assert forall|a: int, b: int|
                    #![trigger members[a], members[b]]
                    0 <= a < b < members.len() implies members[a].death <= members[b].birth by {
                    assert(rows[r as int][a].death <= rows[r as int][b].birth);
                }
            }
            assert(fits_box(members, h, h_real)) by {
                assert forall|a: int| 0 <= a < members.len() implies (#[trigger] members[a]).size * h
                    <= h_real by {
                    assert(all.contains(rows[r as int][a]));
                    let w = choose|w: int| 0 <= w < all.len() && all[w] == members[a];
                    assert(all[w].size * h <= h_real);
                }
            }
            assert(members.len() > 0);
        }
        // The gaps of the row give the points for what comes below.
        let gaps = gap_finder(&row, bounds);
        let gap_points = in_order(&gaps);
        let mut w: usize = 0;
        while w < gap_points.len()
            invariant
                w <= gap_points.len(),
            decreases gap_points.len() - w,
        {
            set_insert(&mut points_to_allocate, gap_points[w]);
            w += 1;
        }
        // The row joins the box that is being filled.
        jobs_buf.append(&mut row);
        in_buf += 1;
        proof {
            vstd::seq_lib::lemma_multiset_commutative(held, members);
            assert(unboxed(res_jobs@).add(jobs_buf@.to_multiset()) =~= rows_multiset(rows.take(r + 1))) by {
                broadcast use vstd::multiset::group_multiset_axioms;

            }
            assert forall|t: int| #[trigger] load_at(jobs_buf@, t) * h <= in_buf * h_real by {
                crate::laws::lemma_live_sum_concat(held, members, t, false);
                lemma_row_load(members, t, h, h_real);
                assert(load_at(held, t) * h <= (in_buf - 1) * h_real);
                let a = load_at(held, t) as int;
                let b = load_at(members, t) as int;
                assert((a + b) * h <= in_buf * h_real) by (nonlinear_arith)
                    requires
                        a * h <= (in_buf - 1) * h_real,
                        b * h <= h_real,
                ;
            }
        }
        if in_buf == h {
            let ghost group = jobs_buf@;
            let ghost boxes = contents_of(res_jobs@);
            proof {
                assert forall|t: int| #[trigger] load_at(group, t) <= h_real by {
                    let a = load_at(group, t) as int;
                    assert(a * h <= h * h_real);
                    assert(a <= h_real) by (nonlinear_arith)
                        requires
                            a * h <= h * h_real,
                            h >= 1,
                    ;
                }
            }
            let boxed = Job::new_box(jobs_buf, h_real, ids);
            res_jobs.push(Arc::new(boxed));
            jobs_buf = Vec::new();
            in_buf = 0;
            proof {
                assert(contents_of(res_jobs@) =~= boxes.push(group));
                lemma_rows_multiset_push(boxes, group);
                lemma_empty_multiset(jobs_buf@);
                assert(unboxed(res_jobs@).add(jobs_buf@.to_multiset()) =~= rows_multiset(
                    rows.take(r + 1),
                )) by {
                    broadcast use vstd::multiset::group_multiset_axioms;

                }
                assert forall|t: int| #[trigger] load_at(jobs_buf@, t) * h <= in_buf * h_real by {
                    crate::model::lemma_load_within_total(jobs_buf@, t);
                    crate::model::lemma_sum_if_none(jobs_buf@, |i: int| false, false);
                    crate::model::lemma_sum_if_same(jobs_buf@, |i: int| true, |i: int| false, false);
                    assert(load_at(jobs_buf@, t) * h == 0) by (nonlinear_arith)
                        requires
                            load_at(jobs_buf@, t) == 0,
                    ;
                    assert(in_buf * h_real == 0) by (nonlinear_arith)
                        requires
                            in_buf == 0,
                    ;
                }
            }
        }
        r += 1;
    }
    proof {
        assert(rows.take(rows.len() as int) =~= rows);
    }
    if jobs_buf.len() > 0 {
        let ghost group = jobs_buf@;
        let ghost boxes = contents_of(res_jobs@);
        proof {
            assert forall|t: int| #[trigger] load_at(group, t) <= h_real by {
                let a = load_at(group, t) as int;
                assert(a * h <= in_buf * h_real);
                assert(in_buf * h_real <= h * h_real) by (nonlinear_arith)
                    requires
                        in_buf <= h,
                ;
                assert(a <= h_real) by (nonlinear_arith)
                    requires
                        a * h <= h * h_real,
                        h >= 1,
                ;
            }
        }
        let boxed = Job::new_box(jobs_buf, h_real, ids);
        res_jobs.push(Arc::new(boxed));
        proof {
            assert(contents_of(res_jobs@) =~= boxes.push(group));
            lemma_rows_multiset_push(boxes, group);
        }
    } else {
        proof {
            lemma_empty_multiset(jobs_buf@);
            assert(unboxed(res_jobs@) =~= unboxed(res_jobs@).add(jobs_buf@.to_multiset())) by {
                broadcast use vstd::multiset::group_multiset_axioms;

            }
        }
    }
    (res_jobs, points_to_allocate)
}

/// The control for boxing the jobs that live within one stretch: the
/// stretch as bounding interval, and as critical points its ends and
/// the given points that lie strictly within it. Where no job is live at
/// any of those, one more point at which a job is live, picked by
/// chance.
fn sub_control(x: &Instance, bi_start: ByteSteps, bi_end: ByteSteps, points: &Vec<ByteSteps>) -> (res:
    T2Control)
    requires
        x.jobs.len() > 0,
        roomy(x.jobs@),
        all_within(x.jobs@, bi_start, bi_end),
    ensures
        res.wf(x.jobs@),
        res.bounding_interval == (bi_start, bi_end),
{
    let mut crit_pts: BTreeSet<ByteSteps> = BTreeSet::new();
    set_insert(&mut crit_pts, bi_start);
    set_insert(&mut crit_pts, bi_end);
    let mut pts_ready = false;
    let ghost mut witness: ByteSteps = 0;
    let mut k: usize = 0;
    proof {
        assert(x.jobs[0].birth + 2 <= x.jobs[0].death);
    }
    while k < points.len()
        invariant
            k <= points.len(),
            bi_start < bi_end,
            crit_pts@.finite(),
            crit_pts@.contains(bi_start),
            crit_pts@.contains(bi_end),
            forall|p: usize| #[trigger] crit_pts@.contains(p) ==> bi_start <= p <= bi_end,
            pts_ready ==> crit_pts@.contains(witness) && bi_start < witness < bi_end && someone_live(
                x.jobs@,
                witness as int,
            ),
        decreases points.len() - k,
    {
        let v = points[k];
        if v > bi_start && v < bi_end {
            if !pts_ready && anyone_live(&x.jobs, v) {
                pts_ready = true;
                proof {
                    witness = v;
                }
            }
            set_insert(&mut crit_pts, v);
        }
        k += 1;
    }
    if !pts_ready {
        // No point given has a live job: one is made.
        let v = T2Control::gen_crit(x, bi_start, bi_end);
        set_insert(&mut crit_pts, v);
        proof {
            witness = v;
        }
    }
    let res = T2Control { bounding_interval: (bi_start, bi_end), critical_points: crit_pts };
    proof {
        assert(res.critical_points@.contains(witness) && bi_start < witness < bi_end && someone_live(
            x.jobs@,
            witness as int,
        ));
    }
    res
}

/// Boxes the jobs around critical points. The jobs live at a critical
/// point on the inside are grouped around the points, and every group is
/// carved into strips, of which the inner ones are boxed. What stays
/// unresolved is coloured, and the rows are boxed `h` to a box. The jobs
/// that live within a stretch between two points are boxed in the same
/// way, around the ends of the gaps that the rows leave within their
/// stretch. Every job ends up in one box of size `h_real`.
pub fn t_2(
    input: Instance,
    h: ByteSteps,
    h_real: ByteSteps,
    outer_mult: ByteSteps,
    inner_mult: ByteSteps,
    ctrl: Option<T2Control>,
    ids: &mut BoxIds,
) -> (res: Instance)
    requires
        input.jobs.len() > 0,
        roomy(input.jobs@),
        h >= 1,
        inner_mult >= 1,
        fits_box(input.jobs@, h, h_real),
        ctrl matches Some(c) ==> c.wf(input.jobs@),
        old(ids).left() >= input.jobs.len(),
    ensures
        are_boxes(res.jobs@, h_real),
        unboxed(res.jobs@) == input.jobs@.to_multiset(),
        res.wf(),
        res.jobs.len() <= input.jobs.len(),
        final(ids).left() == old(ids).left() - res.jobs.len(),
    decreases input.jobs.len(),
{
    let ghost jobs = input.jobs@;
    let n = input.jobs.len();
    // A first call makes its own control.
    let ctrl = match ctrl {
        Some(v) => v,
        None => T2Control::new(&input),
    };
    let pts_vec = in_order(&ctrl.critical_points);
    let ghost (start, end) = ctrl.bounding_interval;
    let ghost inside = choose|p: usize| #[trigger]
        ctrl.critical_points@.contains(p) && start < p < end && someone_live(jobs, p as int);
    proof {
        let v = pts_vec@;
        assert(v.to_set().contains(start) && v.to_set().contains(end) && v.to_set().contains(inside));
        assert(v.contains(start) && v.contains(end) && v.contains(inside));
        let a = choose|a: int| 0 <= a < v.len() && v[a] == start;
        let b = choose|b: int| 0 <= b < v.len() && v[b] == end;
        assert(v.contains(v[0]) && v.contains(v[v.len() - 1]));
        assert(ctrl.critical_points@.contains(v[0]));
        assert(ctrl.critical_points@.contains(v[v.len() - 1]));
        assert(v[0] == start);
        assert(v[v.len() - 1] == end);
        assert forall|i: int| 0 <= i < jobs.len() implies (#[trigger] jobs[i]).birth < jobs[i].death by {
            assert(jobs[i].birth + 2 <= jobs[i].death);
        }
    }
    let (r_coarse, x_is) = split_at_points(input.jobs, &pts_vec);
    let ghost live = r_coarse@;
    let ghost groups = groups_view(x_is@);
    proof {
        lemma_members_of(live, rows_multiset(groups), jobs);
        lemma_rows_len(groups);
        lemma_inherit(live, jobs, h, h_real);
        // A job live at a critical point on the inside is in no group.
        let v = pts_vec@;
        let at = choose|at: int| 0 <= at < v.len() && v[at] == inside;
        let j = choose|j: int| 0 <= j < jobs.len() && (#[trigger] jobs[j]).live_at(inside as int);
        assert(live.len() > 0) by {
            if live.len() == 0 {
                lemma_empty_multiset(live);
                assert(jobs.contains(jobs[j]));
                vstd::seq_lib::to_multiset_contains(jobs, jobs[j]);
                assert(rows_multiset(groups).count(jobs[j]) > 0) by {
                    broadcast use vstd::multiset::group_multiset_axioms;

                }
                crate::model::lemma_rows_multiset_found(groups, jobs[j]);
                let (g, a) = choose|g: int, a: int|
                    #![trigger groups[g][a]]
                    0 <= g < groups.len() && 0 <= a < groups[g].len() && groups[g][a] == jobs[j];
                let q = x_is[g].0 as int;
                assert(x_is[g].1.jobs@[a] == jobs[j]);
                assert(v[q] <= jobs[j].birth && jobs[j].death <= v[q + 1]);
                if at <= q {
                    if at < q {
                        assert(v[at] < v[q]);
                    }
                } else {
                    if q + 1 < at {
                        assert(v[q + 1] < v[at]);
                    }
                }
            }
        }
    }
    // The jobs live at the points, group by group.
    let r_is = split_ris(r_coarse, pts_vec.as_slice());
    proof {
        lemma_ris_partition(live, pts_vec@);
        lemma_row_members(live, rows_view(r_is@));
        lemma_rows_len(rows_view(r_is@));
        vstd::seq_lib::to_multiset_len(live);
        assert forall|g: int| 0 <= g < r_is.len() implies fits_box((#[trigger] r_is[g])@, h, h_real) by {
            assert forall|i: int| 0 <= i < r_is[g]@.len() implies live.contains(#[trigger] r_is[g]@[i]) by {
                assert(live.contains(rows_view(r_is@)[g][i]));
            }
            lemma_inherit(r_is[g]@, live, h, h_real);
        }
    }
    let (mut res_jobs, all_unresolved) = box_groups(r_is, h, h_real, outer_mult, inner_mult, ids);
    let ghost first_boxes = res_jobs@;
    proof {
        broadcast use vstd::multiset::group_multiset_axioms;

        assert(all_unresolved@.to_multiset().add(unboxed(first_boxes)) =~= live.to_multiset());
        lemma_members_of(all_unresolved@, unboxed(first_boxes), live);
        lemma_inherit(all_unresolved@, live, h, h_real);
        assert(proper_lifetimes(live)) by {
            lemma_inherit(live, jobs, h, h_real);
        }
    }
    let (mut row_boxes, points_to_allocate) = box_rows(
        all_unresolved,
        h,
        h_real,
        ctrl.bounding_interval,
        ids,
    );
    proof {
        lemma_unboxed_concat(first_boxes, row_boxes@);
        broadcast use vstd::multiset::group_multiset_axioms;

        assert(unboxed(first_boxes + row_boxes@) =~= live.to_multiset());
    }
    res_jobs.append(&mut row_boxes);
    let points = in_order(&points_to_allocate);
    let mut res = Instance::new(res_jobs);
    let mut x_is = x_is;
    let mut g: usize = 0;
    proof {
        assert(groups.take(0) =~= Seq::<Seq<Arc<Job>>>::empty());
        assert(unboxed(res.jobs@) =~= live.to_multiset().add(rows_multiset(groups.take(0)))) by {
            broadcast use vstd::multiset::group_multiset_axioms;

        }
    }
    while g < x_is.len()
        invariant
            g <= x_is.len(),
            h >= 1,
            inner_mult >= 1,
            n == jobs.len(),
            jobs == input.jobs@,
            n == live.len() + rows_len(groups),
            live.len() > 0,
            roomy(jobs),
            fits_box(jobs, h, h_real),
            ascending(pts_vec@),
            x_is.len() == groups.len(),
            forall|x: Arc<Job>| rows_multiset(groups).count(x) > 0 ==> jobs.contains(x),
            forall|w: int|
                g <= w < x_is.len() ==> (#[trigger] x_is[w]).1.jobs@ == groups[w] && x_is[w].0 + 1
                    < pts_vec.len() && x_is[w].1.jobs.len() > 0 && all_within(
                    x_is[w].1.jobs@,
                    pts_vec[x_is[w].0 as int],
                    pts_vec[x_is[w].0 + 1],
                ),
            res.wf(),
            are_boxes(res.jobs@, h_real),
            unboxed(res.jobs@) == live.to_multiset().add(rows_multiset(groups.take(g as int))),
            res.jobs.len() <= live.len() + rows_len(groups.take(g as int)),
            ids.left() == old(ids).left() - res.jobs.len(),
            old(ids).left() >= n,
        decreases x_is.len() - g,
    {
        let mut taken: (ByteSteps, Instance) = (0, Instance::new(Vec::new()));
        std::mem::swap(&mut taken, &mut x_is[g]);
        let (i, x_i) = taken;
        let ghost members = x_i.jobs@;
        let ghost boxes_before = res.jobs@;
        proof {
            assert(members == groups[g as int]);
            assert(groups.take(g + 1).drop_last() =~= groups.take(g as int));
            lemma_rows_len_take(groups, g as int);
            lemma_rows_len_take(groups, g + 1);
            lemma_row_within_len(groups, g as int);
            assert forall|a: int| 0 <= a < members.len() implies jobs.contains(#[trigger] members[a]) by {
                crate::model::lemma_rows_multiset_member(groups, g as int, a);
            }
            lemma_inherit(members, jobs, h, h_real);
        }
        // Where the stretch of the group begins and ends.
        let bi_start = pts_vec[i];
        let bi_end = pts_vec[i + 1];
        let sub = sub_control(&x_i, bi_start, bi_end, &points);
        let x_i_res = t_2(x_i, h, h_real, outer_mult, inner_mult, Some(sub), ids);
        proof {
            lemma_unboxed_concat(boxes_before, x_i_res.jobs@);
            broadcast use vstd::multiset::group_multiset_axioms;

            assert(unboxed(boxes_before + x_i_res.jobs@) =~= live.to_multiset().add(
                rows_multiset(groups.take(g + 1)),
            ));
        }
        res.merge_via_ref(x_i_res);
        g += 1;
    }
    proof {
        assert(groups.take(groups.len() as int) =~= groups);
    }
    res
}

/// What a round of boxing goes by.
pub struct BoxingPlan {
    /// The height of the boxes.
    pub h: ByteSteps,
    /// The heights by which the jobs are sorted into buckets, going
    /// upward.
    pub thresholds: Vec<ByteSteps>,
    /// How many times `h` jobs an outer strip takes.
    pub outer_mult: ByteSteps,
    /// How many times `h` jobs an inner strip takes at most.
    pub inner_mult: ByteSteps,
}

impl BoxingPlan {
    /// The plan can box the jobs: its heights go upward, from one at
    /// the least to the height of the boxes at the most, and reach the
    /// size of every job; an inner strip takes a job at least.
    pub open spec fn suits(&self, jobs: Seq<Arc<Job>>) -> bool {
        &&& self.inner_mult >= 1
        &&& forall|a: int, b: int|
            0 <= a <= b < self.thresholds.len() ==> self.thresholds[a] <= self.thresholds[b]
        &&& forall|k: int| 0 <= k < self.thresholds.len() ==> 1 <= #[trigger] self.thresholds[k] <= self.h
        &&& forall|i: int|
            0 <= i < jobs.len() ==> self.thresholds.len() > 0 && (#[trigger] jobs[i]).size
                <= self.thresholds[self.thresholds.len() - 1]
    }

    /// Says whether the plan can box the jobs.
    pub fn check(&self, jobs: &JobSet) -> (ok: bool)
        ensures
            ok == self.suits(jobs@),
    {
        if self.inner_mult < 1 {
            return false;
        }
        let m = self.thresholds.len();
        let mut k: usize = 0;
        while k < m
            invariant
                k <= m,
                m == self.thresholds.len(),
                forall|w: int| 0 <= w < k ==> 1 <= #[trigger] self.thresholds[w] <= self.h,
                forall|w: int| 0 < w < k ==> self.thresholds[w - 1] <= #[trigger] self.thresholds[w],
            decreases m - k,
        {
            if self.thresholds[k] < 1 || self.thresholds[k] > self.h {
                return false;
            }
            if k > 0 && self.thresholds[k - 1] > self.thresholds[k] {
                proof {
                    assert(!(self.thresholds[k - 1] <= self.thresholds[k as int]));
                }
                return false;
            }
            k += 1;
        }
        proof {
            assert forall|a: int, b: int| 0 <= a <= b < m implies self.thresholds[a] <= self.thresholds[b] by {
                lemma_steps_up(self.thresholds@, a, b);
            }
        }
        let mut i: usize = 0;
        while i < jobs.len()
            invariant
                i <= jobs.len(),
                m == self.thresholds.len(),
                forall|w: int| 0 <= w < i ==> m > 0 && (#[trigger] jobs[w]).size <= self.thresholds[m - 1],
            decreases jobs.len() - i,
        {
            if m == 0 || jobs[i].size > self.thresholds[m - 1] {
                return false;
            }
            i += 1;
        }
        true
    }
}

/// Numbers of which none is below the one before it go upward.
pub proof fn lemma_steps_up(v: Seq<usize>, a: int, b: int)
    requires
        forall|w: int| 0 < w < v.len() ==> v[w - 1] <= #[trigger] v[w],
        0 <= a <= b < v.len(),
    ensures
        v[a] <= v[b],
    decreases b - a,
{
    if a < b {
        lemma_steps_up(v, a, b - 1);
    }
}

/// The parts one after the other.
pub open spec fn joined(parts: Seq<Seq<Arc<Job>>>) -> Seq<Arc<Job>>
    decreases parts.len(),
{
    if parts.len() == 0 {
        Seq::empty()
    } else {
        joined(parts.drop_last()) + parts.last()
    }
}

/// The boxes are those of the buckets of the jobs, bucket after bucket
/// in the order of their heights: the boxes of a bucket hold the jobs of
/// that bucket, each once.
pub open spec fn by_buckets(
    jobs: Seq<Arc<Job>>,
    plan: BoxingPlan,
    boxes: Seq<Arc<Job>>,
    buckets: Seq<(ByteSteps, Instance)>,
    parts: Seq<Seq<Arc<Job>>>,
) -> bool {
    &&& are_buckets(jobs, plan.thresholds@, buckets)
    &&& parts.len() == buckets.len()
    &&& boxes == joined(parts)
    &&& forall|w: int|
        0 <= w < parts.len() ==> are_boxes(#[trigger] parts[w], plan.h) && unboxed(parts[w])
            == buckets[w].1.jobs@.to_multiset()
}

/// Boxes every job into a box of the height of the plan. The jobs are
/// sorted into buckets by height, and each bucket is boxed around
/// critical points, as many rows or jobs to a box as the height of the
/// bucket goes into the height of the boxes.
pub fn c_15(input: Instance, plan: &BoxingPlan, ids: &mut BoxIds) -> (res: Instance)
    requires
        plan.suits(input.jobs@),
        roomy(input.jobs@),
        old(ids).left() >= input.jobs.len(),
    ensures
        are_boxes(res.jobs@, plan.h),
        unboxed(res.jobs@) == input.jobs@.to_multiset(),
        roomy(res.jobs@),
        res.wf(),
        res.jobs.len() <= input.jobs.len(),
        final(ids).left() == old(ids).left() - res.jobs.len(),
        exists|buckets: Seq<(ByteSteps, Instance)>, parts: Seq<Seq<Arc<Job>>>| #[trigger]
            by_buckets(input.jobs@, *plan, res.jobs@, buckets, parts),
{
    let ghost jobs = input.jobs@;
    let h = plan.h;
    let mut buckets = Instance::make_buckets(input, &plan.thresholds);
    let ghost groups = groups_view(buckets@);
    let ghost all = buckets@;
    let ghost mut parts: Seq<Seq<Arc<Job>>> = Seq::empty();
    let mut res = Instance::new(Vec::new());
    let mut b: usize = 0;
    proof {
        lemma_rows_len(groups);
        vstd::seq_lib::to_multiset_len(jobs);
        assert(groups.take(0) =~= Seq::<Seq<Arc<Job>>>::empty());
        assert(contents_of(res.jobs@) =~= Seq::<Seq<Arc<Job>>>::empty());
    }
    while b < buckets.len()
        invariant
            b <= buckets.len(),
            h == plan.h,
            all.len() == buckets.len(),
            groups == groups_view(all),
            parts.len() == b,
            res.jobs@ == joined(parts),
            forall|w: int|
                0 <= w < b ==> are_boxes(#[trigger] parts[w], h) && unboxed(parts[w]) == all[w].1.jobs@.to_multiset(),
            plan.inner_mult >= 1,
            buckets.len() == groups.len(),
            rows_multiset(groups) == jobs.to_multiset(),
            rows_len(groups) == jobs.len(),
            roomy(jobs),
            forall|w: int|
                b <= w < buckets.len() ==> (#[trigger] buckets[w]).1.jobs@ == groups[w] && 1 <= buckets[w].0
                    <= h && buckets[w].1.jobs.len() > 0 && forall|i: int|
                    0 <= i < buckets[w].1.jobs.len() ==> (#[trigger] buckets[w].1.jobs[i]).size
                        <= buckets[w].0,
            res.wf(),
            are_boxes(res.jobs@, h),
            unboxed(res.jobs@) == rows_multiset(groups.take(b as int)),
            res.jobs.len() <= rows_len(groups.take(b as int)),
            ids.left() == old(ids).left() - res.jobs.len(),
            old(ids).left() >= jobs.len(),
        decreases buckets.len() - b,
    {
        let mut taken: (ByteSteps, Instance) = (0, Instance::new(Vec::new()));
        std::mem::swap(&mut taken, &mut buckets[b]);
        let (h_i, unit_jobs) = taken;
        let ghost members = unit_jobs.jobs@;
        let ghost boxes_before = res.jobs@;
        let h_param = h / h_i;
        proof {
            assert(members == groups[b as int]);
            assert(groups[b as int] == all[b as int].1.jobs@);
            assert(groups.take(b + 1).drop_last() =~= groups.take(b as int));
            lemma_rows_len_take(groups, b as int);
            lemma_rows_len_take(groups, b + 1);
            lemma_row_within_len(groups, b as int);
            vstd::arithmetic::div_mod::lemma_fundamental_div_mod(h as int, h_i as int);
            vstd::arithmetic::div_mod::lemma_mod_bound(h as int, h_i as int);
            assert(h_param >= 1) by (nonlinear_arith)
                requires
                    h == h_i * h_param + h % h_i,
                    0 <= h % h_i < h_i,
                    1 <= h_i <= h,
                    0 <= h_param,
            ;
            assert forall|i: int| 0 <= i < members.len() implies (#[trigger] members[i]).size * h_param
                <= h by {
                let s = members[i].size as int;
                assert(s * h_param <= h) by (nonlinear_arith)
                    requires
                        0 <= s <= h_i,
                        h == h_i * h_param + h % h_i,
                        0 <= h % h_i,
                        0 <= h_param,
                ;
            }
            assert forall|a: int| 0 <= a < members.len() implies jobs.contains(#[trigger] members[a]) by {
                lemma_rows_multiset_member(groups, b as int, a);
                vstd::seq_lib::to_multiset_contains(jobs, members[a]);
            }
            lemma_inherit(members, jobs, h_param, h);
        }
        let boxed = t_2(unit_jobs, h_param, h, plan.outer_mult, plan.inner_mult, None, ids);
        proof {
            lemma_unboxed_concat(boxes_before, boxed.jobs@);
        }
        let ghost part = boxed.jobs@;
        res.merge_via_ref(boxed);
        proof {
            let longer = parts.push(part);
            assert(longer.drop_last() =~= parts);
            assert(joined(longer) == joined(parts) + part);
            assert forall|w: int| 0 <= w < b + 1 implies are_boxes(#[trigger] longer[w], h) && unboxed(
                longer[w],
            ) == all[w].1.jobs@.to_multiset() by {
                if w < b {
                    assert(longer[w] == parts[w]);
                }
            }
            parts = longer;
        }
        b += 1;
    }
    proof {
        assert(groups.take(groups.len() as int) =~= groups);
        lemma_boxes_roomy(res.jobs@, h, jobs);
        assert(by_buckets(jobs, *plan, res.jobs@, all, parts));
    }
    res
}

/// One round of boxing the small jobs: the jobs no higher than
/// `target_size` are boxed by the plan, and the others come back with
/// the boxes behind them. The rounds go on for as long as the caller
/// finds the instance fit for another.
pub fn rogue(input: &Instance, target_size: ByteSteps, plan: &BoxingPlan, ids: &mut BoxIds) -> (res:
    Instance)
    requires
        input.wf(),
        roomy(input.jobs@),
        plan.suits(input.jobs@.filter(no_higher_than(target_size))),
        old(ids).left() >= input.jobs.len(),
    ensures
        res.wf(),
        roomy(res.jobs@),
        res.jobs.len() <= input.jobs.len(),
        ({
            let large = input.jobs@.filter(higher_than(target_size));
            let small = input.jobs@.filter(no_higher_than(target_size));
            &&& large.len() <= res.jobs.len()
            &&& res.jobs@.take(large.len() as int) == large
            &&& are_boxes(res.jobs@.skip(large.len() as int), plan.h)
            &&& unboxed(res.jobs@.skip(large.len() as int)) == small.to_multiset()
        }),
        final(ids).left() == old(ids).left() - (res.jobs.len() - input.jobs@.filter(
            higher_than(target_size),
        ).len()),
{
    let (x_s, x_l) = input.split_by_height(target_size);
    proof {
        lemma_split_height(input.jobs@, target_size);
        lemma_members_of(x_s.jobs@, x_l.jobs@.to_multiset(), input.jobs@);
        lemma_inherit(x_s.jobs@, input.jobs@, 1, 1);
        assert(x_l.jobs@.to_multiset().add(x_s.jobs@.to_multiset()) =~= input.jobs@.to_multiset()) by {
            broadcast use vstd::multiset::group_multiset_axioms;

        }
        lemma_members_of(x_l.jobs@, x_s.jobs@.to_multiset(), input.jobs@);
        lemma_inherit(x_l.jobs@, input.jobs@, 1, 1);
        vstd::seq_lib::to_multiset_len(x_s.jobs@);
    }
    let small_boxed = c_15(x_s, plan, ids);
    let res = x_l.merge_with(small_boxed);
    proof {
        let large = x_l.jobs@;
        assert(res.jobs@.take(large.len() as int) =~= large);
        assert(res.jobs@.skip(large.len() as int) =~= small_boxed.jobs@);
        assert forall|i: int| 0 <= i < res.jobs.len() implies (#[trigger] res.jobs[i]).birth + 2
            <= res.jobs[i].death by {
            if i < large.len() {
                assert(res.jobs[i] == large[i]);
            } else {
                assert(res.jobs[i] == small_boxed.jobs[i - large.len()]);
            }
        }
    }
    res
}

} // verus!
