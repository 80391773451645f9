use crate::instance::Instance;
use crate::job::{ByteSteps, Job, JobSet};
use crate::model::{all_within, max_death, min_birth, roomy, someone_live};
use itertools::Itertools;
use rand::Rng;
use std::collections::BTreeSet;
use std::collections::HashMap;
use std::sync::Arc;
use vstd::prelude::*;
use vstd::std_specs::cmp::OrdSpec;
use vstd::std_specs::iter::IteratorSpec;

verus! {

/// Lexicographic order on key triples, the order `Ord` gives to tuples.
pub open spec fn key_le(a: (usize, usize, usize), b: (usize, usize, usize)) -> bool {
    a.0 < b.0 || (a.0 == b.0 && (a.1 < b.1 || (a.1 == b.1 && a.2 <= b.2)))
}

/// `Itertools::sorted_unstable`, collected: the same keys, in ascending
/// order. Which of two equal keys comes first is left open.
#[verifier::external_body]
pub(crate) fn sorted_unstable(keys: Vec<(usize, usize, usize)>) -> (res: Vec<(usize, usize, usize)>)
    ensures
        res@.to_multiset() == keys@.to_multiset(),
        forall|i: int, j: int| 0 <= i <= j < res.len() ==> key_le(#[trigger] res[i], #[trigger] res[j]),
{
    keys.into_iter().sorted_unstable().collect()
}

/// Two sequences with the same multiset have the same length and elements.
pub proof fn lemma_same_elements<A>(s: Seq<A>, t: Seq<A>)
    requires
        s.to_multiset() == t.to_multiset(),
    ensures
        s.len() == t.len(),
        forall|x: A| s.contains(x) <==> t.contains(x),
        s.no_duplicates() ==> t.no_duplicates(),
{
    vstd::seq_lib::to_multiset_len(s);
    vstd::seq_lib::to_multiset_len(t);
    assert forall|x: A| s.contains(x) <==> t.contains(x) by {
        vstd::seq_lib::to_multiset_contains(s, x);
        vstd::seq_lib::to_multiset_contains(t, x);
    }
    if s.no_duplicates() {
        s.lemma_multiset_has_no_duplicates();
        t.lemma_multiset_has_no_duplicates_conv();
    }
}

/// Where two sequences have the same multiset, two places of the one
/// have two places of the other.
pub proof fn lemma_positions_of<A>(s: Seq<A>, t: Seq<A>, a: int, b: int)
    requires
        s.to_multiset() == t.to_multiset(),
        0 <= a < s.len(),
        0 <= b < s.len(),
        a != b,
    ensures
        exists|qa: int, qb: int|
            0 <= qa < t.len() && 0 <= qb < t.len() && qa != qb && t[qa] == s[a] && t[qb] == s[b],
{
    vstd::seq_lib::to_multiset_contains(s, s[a]);
    vstd::seq_lib::to_multiset_contains(t, s[a]);
    vstd::seq_lib::to_multiset_contains(s, s[b]);
    vstd::seq_lib::to_multiset_contains(t, s[b]);
    assert(s.contains(s[a]));
    assert(s.contains(s[b]));
    let qa = choose|qa: int| 0 <= qa < t.len() && t[qa] == s[a];
    if s[a] != s[b] {
        let qb = choose|qb: int| 0 <= qb < t.len() && t[qb] == s[b];
        assert(qa != qb);
    } else {
        // The element is twice in `s`, so it is twice in `t`.
        let (lo, hi) = if a < b {
            (a, b)
        } else {
            (b, a)
        };
        let s1 = s.remove(hi);
        vstd::seq_lib::to_multiset_remove(s, hi);
        assert(s1[lo] == s[a]);
        vstd::seq_lib::to_multiset_contains(s1, s[a]);
        assert(s1.contains(s[a]));
        assert(s.to_multiset().count(s[a]) >= 2);
        let t1 = t.remove(qa);
        vstd::seq_lib::to_multiset_remove(t, qa);
        vstd::seq_lib::to_multiset_contains(t1, s[a]);
        assert(t1.contains(s[a]));
        let q1 = choose|q1: int| 0 <= q1 < t1.len() && t1[q1] == s[a];
        let qb = if q1 < qa {
            q1
        } else {
            q1 + 1
        };
        assert(t[qb] == s[b]);
    }
}

/// The elements of `s` in the order that `perm` lists their indices.
pub open spec fn pick<A>(s: Seq<A>, perm: Seq<int>) -> Seq<A> {
    Seq::new(perm.len(), |k: int| s[perm[k]])
}

/// `perm` lists indices below `n`.
pub open spec fn indices_below(perm: Seq<int>, n: int) -> bool {
    forall|k: int| 0 <= k < perm.len() ==> 0 <= #[trigger] perm[k] < n
}

/// A list of `n` distinct indices below `n` holds every one of them.
pub proof fn lemma_covers(perm: Seq<int>, n: int)
    requires
        perm.len() == n,
        perm.no_duplicates(),
        indices_below(perm, n),
    ensures
        forall|v: int| 0 <= v < n ==> perm.contains(v),
{
    perm.unique_seq_to_set();
    vstd::seq_lib::seq_to_set_is_finite(perm);
    vstd::set_lib::lemma_int_range(0, n);
    let range = vstd::set_lib::set_int_range(0, n);
    assert(perm.to_set().subset_of(range)) by {
        assert forall|v: int| perm.to_set().contains(v) implies range.contains(v) by {
            let k = choose|k: int| 0 <= k < perm.len() && perm[k] == v;
            assert(0 <= perm[k] < n);
        }
    }
    vstd::set_lib::lemma_subset_equality(perm.to_set(), range);
    assert forall|v: int| 0 <= v < n implies perm.contains(v) by {
        assert(range.contains(v));
        assert(perm.to_set().contains(v));
    }
}

/// Distinct indices below `n` that hold every index below `n` are `n` in
/// number.
pub proof fn lemma_full_cover_len(perm: Seq<int>, n: int)
    requires
        0 <= n,
        perm.no_duplicates(),
        indices_below(perm, n),
        forall|v: int| 0 <= v < n ==> perm.contains(v),
    ensures
        perm.len() == n,
{
    perm.unique_seq_to_set();
    vstd::set_lib::lemma_int_range(0, n);
    let range = vstd::set_lib::set_int_range(0, n);
    assert(perm.to_set() =~= range) by {
        assert forall|v: int| perm.to_set().contains(v) implies range.contains(v) by {
            let k = choose|k: int| 0 <= k < perm.len() && perm[k] == v;
            assert(0 <= perm[k] < n);
        }
        assert forall|v: int| range.contains(v) implies perm.to_set().contains(v) by {
            assert(perm.contains(v));
        }
    }
}

/// Listing a sequence by a permutation of its indices keeps its multiset.
pub proof fn lemma_permutation_multiset<A>(s: Seq<A>, perm: Seq<int>)
    requires
        perm.len() == s.len(),
        perm.no_duplicates(),
        indices_below(perm, s.len() as int),
    ensures
        pick(s, perm).to_multiset() =~= s.to_multiset(),
    decreases s.len(),
{
    if s.len() == 0 {
        assert(pick(s, perm) =~= s);
    } else {
        let n = s.len() as int;
        lemma_covers(perm, n);
        assert(perm.contains(n - 1));
        let q = choose|q: int| 0 <= q < perm.len() && perm[q] == n - 1;
        let perm2 = perm.remove(q);
        let s2 = s.drop_last();
        assert(indices_below(perm2, n - 1)) by {
            assert forall|k: int| 0 <= k < perm2.len() implies 0 <= #[trigger] perm2[k] < n - 1 by {
                if k < q {
                    assert(perm2[k] == perm[k]);
                } else {
                    assert(perm2[k] == perm[k + 1]);
                }
            }
        }
        assert(perm2.no_duplicates()) by {
            assert forall|a: int, b: int|
                0 <= a < perm2.len() && 0 <= b < perm2.len() && a != b implies perm2[a]
                != perm2[b] by {
                let a1 = if a < q {
                    a
                } else {
                    a + 1
                };
                let b1 = if b < q {
                    b
                } else {
                    b + 1
                };
                assert(perm2[a] == perm[a1]);
                assert(perm2[b] == perm[b1]);
            }
        }
        lemma_permutation_multiset(s2, perm2);
        assert(pick(s, perm) =~= pick(s2, perm2).insert(q, s[n - 1])) by {
            let lhs = pick(s, perm);
            let rhs = pick(s2, perm2).insert(q, s[n - 1]);
            assert(lhs.len() == rhs.len());
            assert forall|k: int| 0 <= k < lhs.len() implies lhs[k] == rhs[k] by {
                if k < q {
                    assert(perm2[k] == perm[k]);
                } else if k > q {
                    assert(perm2[k - 1] == perm[k]);
                }
            }
        }
        vstd::seq_lib::to_multiset_insert(pick(s2, perm2), q, s[n - 1]);
        assert(s =~= s2.push(s[n - 1]));
        vstd::seq_lib::to_multiset_build(s2, s[n - 1]);
    }
}

/// `BTreeSet::pop_first`: takes the least element out of the set and
/// returns it, or returns `None` and leaves the set empty as it was.
#[verifier::external_body]
pub(crate) fn pop_first(set: &mut BTreeSet<usize>) -> (res: Option<usize>)
    ensures
        match res {
            Some(least) => old(set)@.contains(least) && final(set)@ == old(set)@.remove(least)
                && forall|other: usize| old(set)@.contains(other) ==> least <= other,
            None => old(set)@.is_empty() && final(set)@ == old(set)@,
        },
{
    set.pop_first()
}

/// The order of `usize` keys is the order of the numbers.
pub proof fn lemma_usize_keys()
    ensures
        vstd::laws_cmp::obeys_cmp::<usize>(),
{
    broadcast use vstd::laws_cmp::group_laws_cmp;

}

/// Puts `k` into the set; says whether it was new.
pub fn set_insert(set: &mut BTreeSet<usize>, k: usize) -> (fresh: bool)
    ensures
        final(set)@ == old(set)@.insert(k),
        fresh == !old(set)@.contains(k),
{
    proof {
        lemma_usize_keys();
    }
    set.insert(k)
}

/// Why the gatekeeper turned a job set down, and the job that it stopped
/// at.
#[derive(Debug)]
pub struct JobError {
    pub message: String,
    pub culprit: Job,
}

/// `Rng::gen_range` on the generator of the thread: a number from zero
/// up to, but not including, `n`. Which one is left to chance.
#[verifier::external_body]
pub(crate) fn random_below(n: usize) -> (k: usize)
    requires
        n > 0,
    ensures
        k < n,
{
    rand::thread_rng().gen_range(0..n)
}

/// The indices as mathematical integers.
pub open spec fn as_ints(v: Seq<usize>) -> Seq<int> {
    Seq::new(v.len(), |k: int| v[k] as int)
}

/// The key of the `i`th pair, made unique by its index.
pub open spec fn ranked(keys: Seq<(usize, usize)>, i: int) -> (usize, usize, usize) {
    (keys[i].0, keys[i].1, i as usize)
}

/// `order` lists every index of `keys` once, the least key first; among
/// equal keys the lesser index first.
pub open spec fn is_order_of(keys: Seq<(usize, usize)>, order: Seq<usize>) -> bool {
    &&& order.len() == keys.len()
    &&& as_ints(order).no_duplicates()
    &&& indices_below(as_ints(order), keys.len() as int)
    &&& forall|p: int, q: int|
        #![trigger order[p], order[q]]
        0 <= p <= q < order.len() ==> key_le(ranked(keys, order[p] as int), ranked(keys, order[q] as int))
}

/// The order in which the keys go upward.
pub fn sort_order(keys: &Vec<(usize, usize)>) -> (order: Vec<usize>)
    ensures
        is_order_of(keys@, order@),
{
    let mut triples: Vec<(usize, usize, usize)> = Vec::new();
    let mut i: usize = 0;
    while i < keys.len()
        invariant
            i <= keys.len(),
            triples.len() == i,
            forall|q: int| 0 <= q < i ==> #[trigger] triples[q] == ranked(keys@, q),
        decreases keys.len() - i,
    {
        triples.push((keys[i].0, keys[i].1, i));
        i += 1;
    }
    let ghost unsorted = triples@;
    let sorted = sorted_unstable(triples);
    proof {
        assert(unsorted.no_duplicates());
        lemma_same_elements(unsorted, sorted@);
    }
    let mut order: Vec<usize> = Vec::new();
    let mut q: usize = 0;
    while q < sorted.len()
        invariant
            q <= sorted.len(),
            sorted.len() == keys.len(),
            unsorted.len() == keys.len(),
            forall|w: int| 0 <= w < unsorted.len() ==> #[trigger] unsorted[w] == ranked(keys@, w),
            forall|x: (usize, usize, usize)| unsorted.contains(x) <==> sorted@.contains(x),
            order.len() == q,
            forall|w: int|
                0 <= w < q ==> (#[trigger] order[w]) < keys.len() && sorted[w] == ranked(
                    keys@,
                    order[w] as int,
                ),
        decreases sorted.len() - q,
    {
        let index = sorted[q].2;
        proof {
            let x = sorted@[q as int];
            assert(sorted@.contains(x));
            assert(unsorted.contains(x));
            let w = choose|w: int| 0 <= w < unsorted.len() && unsorted[w] == x;
            assert(unsorted[w] == ranked(keys@, w));
        }
        order.push(index);
        q += 1;
    }
    proof {
        let ints = as_ints(order@);
        assert forall|a: int, b: int| 0 <= a < ints.len() && 0 <= b < ints.len() && a != b implies ints[a]
            != ints[b] by {
            if ints[a] == ints[b] {
                assert(sorted[a] == ranked(keys@, order[a] as int));
                assert(sorted[b] == ranked(keys@, order[b] as int));
            }
        }
        assert forall|p: int, q: int|
            #![trigger order[p], order[q]]
            0 <= p <= q < order.len() implies key_le(
            ranked(keys@, order[p] as int),
            ranked(keys@, order[q] as int),
        ) by {
            assert(key_le(sorted[p], sorted[q]));
        }
    }
    order
}

/// The numbers go strictly upward.
pub open spec fn ascending(v: Seq<usize>) -> bool {
    forall|i: int, j: int| 0 <= i < j < v.len() ==> v[i] < v[j]
}

/// The elements of the set, least first.
pub fn in_order(set: &BTreeSet<usize>) -> (v: Vec<usize>)
    ensures
        ascending(v@),
        v@.to_set() == set@,
        v.len() == set@.len(),
{
    broadcast use vstd::std_specs::btree::group_btree_axioms;
    broadcast use vstd::laws_cmp::group_laws_cmp;

    let mut v: Vec<usize> = Vec::new();
    let ghost all = vstd::std_specs::btree::spec_btree_keys_iter(set).remaining();
    for x in it: set.iter()
        invariant
            it.seq() == all,
            all == vstd::std_specs::btree::spec_btree_keys_iter(set).remaining(),
            v.len() == it.index(),
            forall|k: int| 0 <= k < v.len() ==> #[trigger] v[k] == *all[k],
    {
        v.push(*x);
    }
    proof {
        assert(v@ =~= all.unref());
        assert(vstd::laws_cmp::obeys_cmp::<usize>());
        assert(vstd::laws_cmp::obeys_cmp::<&usize>());
        vstd::std_specs::btree::axiom_increasing_seq_meaning(all);
        assert(vstd::std_specs::btree::increasing_seq(all));
        assert forall|i: int, j: int| 0 <= i < j < v.len() implies v[i] < v[j] by {
            assert(OrdSpec::cmp_spec(&all[i], &all[j]) is Less);
        }
    }
    v
}

/// An event is either a birth or a death.
#[derive(PartialEq, Eq, Clone, Copy, Debug, Structural)]
pub enum EventKind {
    Birth,
    Death,
}

/// One endpoint of a job's lifetime, as met while sweeping a job set in
/// time order.
pub struct Event {
    pub job: Arc<Job>,
    pub evt_t: EventKind,
    /// The moment of the event: the job's birth or its death.
    pub time: ByteSteps,
    /// Position of the job in the set the events were made from.
    pub index: usize,
}

/// The stream of events of a job set, earliest first.
pub type Events = Vec<Event>;

/// Deaths are met before births of the same moment.
pub open spec fn kind_rank(k: EventKind) -> int {
    match k {
        EventKind::Death => 0,
        EventKind::Birth => 1,
    }
}

impl Event {
    /// The event belongs to `jobs[self.index]` and carries its endpoint.
    pub open spec fn wf(&self, jobs: Seq<Arc<Job>>) -> bool {
        &&& self.index < jobs.len()
        &&& self.job == jobs[self.index as int]
        &&& self.time == match self.evt_t {
            EventKind::Birth => jobs[self.index as int].birth,
            EventKind::Death => jobs[self.index as int].death,
        }
    }

    /// Strict traversal order: by time, deaths first, then by index.
    pub open spec fn before(&self, other: &Event) -> bool {
        self.time < other.time || (self.time == other.time && (kind_rank(self.evt_t) < kind_rank(
            other.evt_t,
        ) || (self.evt_t == other.evt_t && self.index < other.index)))
    }
}

/// Event `p` of `evts` is the birth of job `i`.
pub open spec fn birth_at(evts: Seq<Event>, p: int, i: int) -> bool {
    0 <= p < evts.len() && evts[p].evt_t == EventKind::Birth && evts[p].index == i
}

/// Event `p` of `evts` is the death of job `i`.
pub open spec fn death_at(evts: Seq<Event>, p: int, i: int) -> bool {
    0 <= p < evts.len() && evts[p].evt_t == EventKind::Death && evts[p].index == i
}

/// Where job `i` is born in the stream.
pub open spec fn birth_pos(evts: Seq<Event>, i: int) -> int {
    choose|p: int| birth_at(evts, p, i)
}

/// Where job `i` dies in the stream.
pub open spec fn death_pos(evts: Seq<Event>, i: int) -> int {
    choose|p: int| death_at(evts, p, i)
}

/// `evts` is the traversal of `jobs`: both endpoints of every job, each
/// once, in strict traversal order.
pub open spec fn is_traversal(jobs: Seq<Arc<Job>>, evts: Seq<Event>) -> bool {
    &&& evts.len() == 2 * jobs.len()
    &&& forall|p: int| 0 <= p < evts.len() ==> (#[trigger] evts[p]).wf(jobs)
    &&& forall|p: int, q: int|
        #![trigger evts[p], evts[q]]
        0 <= p < q < evts.len() ==> evts[p].before(&evts[q])
    &&& forall|i: int|
        0 <= i < jobs.len() ==> birth_at(evts, #[trigger] birth_pos(evts, i), i)
    &&& forall|i: int|
        0 <= i < jobs.len() ==> death_at(evts, #[trigger] death_pos(evts, i), i)
}

/// In a traversal, the event at a job's birth position is the only birth
/// of that job, and likewise for its death.
pub proof fn lemma_positions_unique(jobs: Seq<Arc<Job>>, evts: Seq<Event>, p: int, i: int)
    requires
        is_traversal(jobs, evts),
        0 <= i < jobs.len(),
    ensures
        birth_at(evts, p, i) <==> p == birth_pos(evts, i),
        death_at(evts, p, i) <==> p == death_pos(evts, i),
{
    let b = birth_pos(evts, i);
    let d = death_pos(evts, i);
    assert(birth_at(evts, b, i));
    assert(death_at(evts, d, i));
    if birth_at(evts, p, i) && p != b {
        assert(evts[p].wf(jobs));
        assert(evts[b].wf(jobs));
        if p < b {
            assert(evts[p].before(&evts[b]));
        } else {
            assert(evts[b].before(&evts[p]));
        }
    }
    if death_at(evts, p, i) && p != d {
        assert(evts[p].wf(jobs));
        assert(evts[d].wf(jobs));
        if p < d {
            assert(evts[p].before(&evts[d]));
        } else {
            assert(evts[d].before(&evts[p]));
        }
    }
}

/// A job with a proper lifetime is born before it dies in the stream.
pub proof fn lemma_birth_before_death(jobs: Seq<Arc<Job>>, evts: Seq<Event>, i: int)
    requires
        is_traversal(jobs, evts),
        0 <= i < jobs.len(),
        jobs[i].birth < jobs[i].death,
    ensures
        0 <= birth_pos(evts, i) < death_pos(evts, i) < evts.len(),
{
    let b = birth_pos(evts, i);
    let d = death_pos(evts, i);
    assert(birth_at(evts, b, i));
    assert(death_at(evts, d, i));
    assert(evts[b].wf(jobs));
    assert(evts[d].wf(jobs));
    if d < b {
        assert(evts[d].before(&evts[b]));
    }
}

/// What must be added to the address `addr` to reach the next multiple
/// of `a`, `addr` itself counting as one if it is one.
pub open spec fn padding(addr: int, a: int) -> int {
    if addr % a == 0 {
        0
    } else {
        a - addr % a
    }
}

/// The least offset from `cand` upward at which a job of the given
/// alignment may stand, where addresses begin at `start`.
pub open spec fn corrected(start: int, cand: int, alignment: Option<usize>) -> int {
    match alignment {
        Some(a) => cand + padding(start + cand, a as int),
        None => cand,
    }
}

/// The address is one at which the alignment lets a job stand.
pub open spec fn aligned(addr: int, alignment: Option<usize>) -> bool {
    match alignment {
        Some(a) => addr % (a as int) == 0,
        None => true,
    }
}

/// At the offset, the alignment lets a job stand, where addresses begin
/// at `start`.
pub open spec fn stands(start: int, offset: int, alignment: Option<usize>) -> bool {
    aligned(start + offset, alignment)
}

/// The corrected offset is aligned, and is the first such from `cand`
/// upward.
pub proof fn lemma_corrected(start: int, cand: int, alignment: Option<usize>)
    requires
        0 <= start,
        0 <= cand,
        alignment != Some(0usize),
    ensures
        cand <= corrected(start, cand, alignment),
        stands(start, corrected(start, cand, alignment), alignment),
        forall|o: int|
            cand <= o < corrected(start, cand, alignment) ==> !#[trigger] stands(start, o, alignment),
        stands(start, cand, alignment) ==> corrected(start, cand, alignment) == cand,
{
    if let Some(a) = alignment {
        let a = a as int;
        let addr = start + cand;
        let up = addr + padding(addr, a);
        vstd::arithmetic::div_mod::lemma_fundamental_div_mod(addr, a);
        vstd::arithmetic::div_mod::lemma_mod_bound(addr, a);
        let q = addr / a;
        if addr % a != 0 {
            assert(up == (q + 1) * a) by (nonlinear_arith)
                requires
                    addr == a * q + addr % a,
                    up == addr + a - addr % a,
            ;
            vstd::arithmetic::div_mod::lemma_mod_multiples_basic(q + 1, a);
            assert forall|o: int| cand <= o < corrected(start, cand, alignment) implies !#[trigger] stands(
                start,
                o,
                alignment,
            ) by {
                let r = (start + o) - q * a;
                assert(q * a == a * q) by (nonlinear_arith);
                assert(0 < r < a);
                vstd::arithmetic::div_mod::lemma_fundamental_div_mod_converse(start + o, a, q, r);
            }
        }
    }
}

/// A job with the offset that it was given in some address space.
#[derive(Clone)]
pub struct PlacedJob {
    pub descr: Arc<Job>,
    pub offset: ByteSteps,
    /// The round of squeezing that gave the offset.
    pub times_squeezed: u32,
}

impl PlacedJob {
    /// Says whether the two jobs are live at a common moment.
    pub fn overlaps_with(&self, other: &Self) -> (r: bool)
        ensures
            r == crate::model::overlap(*self.descr, *other.descr),
    {
        self.descr.birth < other.descr.death && other.descr.birth < self.descr.death
    }

    /// The job at offset zero, not squeezed yet.
    pub fn new(descr: Arc<Job>) -> (res: Self)
        ensures
            res.descr == descr,
            res.offset == 0,
            res.times_squeezed == 0,
    {
        PlacedJob { descr, offset: 0, times_squeezed: 0 }
    }

    /// The first offset above the job.
    pub fn next_avail_offset(&self) -> (end: ByteSteps)
        requires
            self.offset + self.descr.size <= usize::MAX,
        ensures
            end == self.offset + self.descr.size,
    {
        self.offset + self.descr.size
    }

    /// The least offset from `cand` upward at which the job's alignment
    /// lets it stand; `None` where that offset is beyond the machine
    /// word.
    pub fn checked_corrected_offset(&self, start_addr: ByteSteps, cand: ByteSteps) -> (res: Option<
        ByteSteps,
    >)
        requires
            self.descr.alignment != Some(0usize),
        ensures
            res matches Some(o) ==> o == corrected(
                start_addr as int,
                cand as int,
                self.descr.alignment,
            ),
            res is None ==> corrected(start_addr as int, cand as int, self.descr.alignment)
                > usize::MAX,
    {
        if let Some(a) = self.descr.alignment {
            let cand_addr = start_addr as u128 + cand as u128;
            let rest = (cand_addr % (a as u128)) as usize;
            if rest == 0 {
                Some(cand)
            } else {
                cand.checked_add(a - rest)
            }
        } else {
            Some(cand)
        }
    }

    /// The least offset from `cand` upward at which the job's alignment
    /// lets it stand.
    pub fn get_corrected_offset(&self, start_addr: ByteSteps, cand: ByteSteps) -> (res: ByteSteps)
        requires
            self.descr.alignment != Some(0usize),
            corrected(start_addr as int, cand as int, self.descr.alignment) <= usize::MAX,
        ensures
            res == corrected(start_addr as int, cand as int, self.descr.alignment),
    {
        match self.checked_corrected_offset(start_addr, cand) {
            Some(o) => o,
            None => cand,
        }
    }
}

/// For each job, by its identifier, the identifiers of the jobs that are
/// live at a common moment with it.
pub type InterferenceGraph = HashMap<u32, Vec<u32>>;

/// The placed jobs, by identifier.
pub type PlacedJobRegistry = HashMap<u32, PlacedJob>;

/// Jobs with the offsets at which unboxing left them, waiting to be
/// squeezed: the offset first, then the job's identifier.
pub type LoosePlacement = Vec<(ByteSteps, u32)>;

/// What the analysis of a job set found.
pub enum AnalysisResult {
    /// No two jobs are live at a common moment.
    NoOverlap(JobSet),
    /// Some jobs are, and all have one size.
    SameSizes(JobSet, InterferenceGraph, PlacedJobRegistry),
    /// Neither: the jobs have to be boxed.
    NeedsBA(BACtrl),
}

/// What boxing and placement work from.
pub struct BACtrl {
    /// The jobs, with their load and their least and greatest size noted.
    pub input: crate::instance::Instance,
    /// How many jobs there are to box.
    pub to_box: usize,
    /// The load of the jobs.
    pub real_load: ByteSteps,
    /// The job added to widen the span of sizes, if one was.
    pub dummy: Option<Arc<Job>>,
    pub ig: InterferenceGraph,
    /// The jobs as the fallback placement left them.
    pub reg: PlacedJobRegistry,
    /// The makespan of the fallback placement.
    pub best_opt: ByteSteps,
    /// The latest death.
    pub max_death: ByteSteps,
    /// The greatest identifier.
    pub max_id: u32,
}

/// What is known of a group of jobs that is being unboxed.
pub enum UnboxCtrl {
    /// All have this size.
    SameSizes(ByteSteps),
    /// No two are live at a common moment.
    NonOverlapping,
    Unknown,
}

/// The registry holds the job `id`.
pub fn lookup<'a>(reg: &'a PlacedJobRegistry, id: u32) -> (res: Option<&'a PlacedJob>)
    ensures
        res matches Some(pj) ==> reg@.contains_key(id) && *pj == reg@[id],
        res is None ==> !reg@.contains_key(id),
{
    broadcast use vstd::std_specs::hash::group_hash_axioms;

    reg.get(&id)
}

/// The neighbours of the job `id` in the graph.
pub fn neighbours<'a>(ig: &'a InterferenceGraph, id: u32) -> (res: Option<&'a Vec<u32>>)
    ensures
        res matches Some(ns) ==> ig@.contains_key(id) && *ns == ig@[id],
        res is None ==> !ig@.contains_key(id),
{
    broadcast use vstd::std_specs::hash::group_hash_axioms;

    ig.get(&id)
}

/// Writes the entry of a job into the registry.
pub fn record(reg: &mut PlacedJobRegistry, id: u32, pj: PlacedJob)
    ensures
        final(reg)@ == old(reg)@.insert(id, pj),
{
    broadcast use vstd::std_specs::hash::group_hash_axioms;

    reg.insert(id, pj);
}

/// What one call of the boxing of jobs around critical points works
/// with.
pub struct T2Control {
    /// The interval within which all the jobs live.
    pub bounding_interval: (ByteSteps, ByteSteps),
    /// The moments around which the jobs are split.
    pub critical_points: BTreeSet<ByteSteps>,
}

/// The moments next to the endpoints of the jobs -- one after each
/// birth, one before each death -- that lie strictly between `left` and
/// `right`.
pub fn crit_candidates(jobs: &JobSet, left: ByteSteps, right: ByteSteps) -> (pts: Vec<ByteSteps>)
    ensures
        forall|k: int|
            0 <= k < pts.len() ==> left < (#[trigger] pts[k]) < right && exists|i: int|
                0 <= i < jobs.len() && (pts[k] == (#[trigger] jobs[i]).birth + 1 || pts[k]
                    == jobs[i].death - 1),
        forall|i: int|
            0 <= i < jobs.len() && left < (#[trigger] jobs[i]).birth + 1 < right ==> pts@.contains(
                (jobs[i].birth + 1) as usize,
            ),
        forall|i: int|
            0 <= i < jobs.len() && left < (#[trigger] jobs[i]).death - 1 < right ==> pts@.contains(
                (jobs[i].death - 1) as usize,
            ),
{
    let evts = crate::jobset::get_events(jobs);
    let mut pts: Vec<ByteSteps> = Vec::new();
    let ghost mut seen: Seq<int> = Seq::empty();
    let mut k: usize = 0;
    while k < evts.len()
        invariant
            k <= evts.len(),
            is_traversal(jobs@, evts@),
            forall|q: int|
                0 <= q < pts.len() ==> left < (#[trigger] pts[q]) < right && exists|i: int|
                    0 <= i < jobs.len() && (pts[q] == (#[trigger] jobs[i]).birth + 1 || pts[q]
                        == jobs[i].death - 1),
            forall|p: int|
                0 <= p < k && (#[trigger] evts[p]).evt_t == EventKind::Birth && left < evts[p].time + 1
                    < right ==> pts@.contains((evts[p].time + 1) as usize),
            forall|p: int|
                0 <= p < k && (#[trigger] evts[p]).evt_t == EventKind::Death && left < evts[p].time - 1
                    < right ==> pts@.contains((evts[p].time - 1) as usize),
        decreases evts.len() - k,
    {
        proof {
            assert(evts[k as int].wf(jobs@));
        }
        let cand = match evts[k].evt_t {
            EventKind::Birth => evts[k].time.checked_add(1),
            EventKind::Death => evts[k].time.checked_sub(1),
        };
        let ghost before = pts@;
        match cand {
            Some(c) => {
                if c > left && c < right {
                    pts.push(c);
                    proof {
                        let i = evts[k as int].index as int;
                        assert(c == jobs[i].birth + 1 || c == jobs[i].death - 1);
                        assert(pts@[before.len() as int] == c);
                    }
                }
            },
            None => {},
        }
        proof {
            assert forall|x: usize| before.contains(x) implies pts@.contains(x) by {
                let w = choose|w: int| 0 <= w < before.len() && before[w] == x;
                assert(pts@[w] == x);
            }
        }
        k += 1;
    }
    proof {
        assert forall|i: int|
            0 <= i < jobs.len() && left < (#[trigger] jobs[i]).birth + 1 < right implies pts@.contains(
            (jobs[i].birth + 1) as usize,
        ) by {
            let p = birth_pos(evts@, i);
            assert(birth_at(evts@, p, i));
            assert(evts[p].wf(jobs@));
        }
        assert forall|i: int|
            0 <= i < jobs.len() && left < (#[trigger] jobs[i]).death - 1 < right implies pts@.contains(
            (jobs[i].death - 1) as usize,
        ) by {
            let p = death_pos(evts@, i);
            assert(death_at(evts@, p, i));
            assert(evts[p].wf(jobs@));
        }
    }
    pts
}

impl T2Control {
    /// All the jobs live within the bounding interval, whose ends are
    /// critical points; all critical points lie within it, and at one of
    /// them, strictly inside, some job is live.
    pub open spec fn wf(&self, jobs: Seq<Arc<Job>>) -> bool {
        let (start, end) = self.bounding_interval;
        &&& start < end
        &&& self.critical_points@.finite()
        &&& self.critical_points@.contains(start)
        &&& self.critical_points@.contains(end)
        &&& forall|p: usize| #[trigger] self.critical_points@.contains(p) ==> start <= p <= end
        &&& all_within(jobs, start, end)
        &&& exists|p: usize| #[trigger]
            self.critical_points@.contains(p) && start < p < end && someone_live(jobs, p as int)
    }

    /// The control of a first call: the horizon of the jobs, and as
    /// critical points its ends and one moment in between that chance
    /// picks, at which some job is live.
    pub fn new(jobs: &Instance) -> (res: Self)
        requires
            jobs.jobs.len() > 0,
            roomy(jobs.jobs@),
        ensures
            res.wf(jobs.jobs@),
            res.bounding_interval == (min_birth(jobs.jobs@), max_death(jobs.jobs@)),
    {
        let (start, end) = jobs.get_horizon();
        proof {
            crate::model::lemma_horizon(jobs.jobs@);
        }
        let mid = Self::gen_crit(jobs, start, end);
        let mut critical_points: BTreeSet<ByteSteps> = BTreeSet::new();
        set_insert(&mut critical_points, start);
        set_insert(&mut critical_points, end);
        set_insert(&mut critical_points, mid);
        let res = T2Control { bounding_interval: (start, end), critical_points };
        proof {
            assert(res.critical_points@.contains(mid) && start < mid < end && someone_live(
                jobs.jobs@,
                mid as int,
            ));
        }
        res
    }

    /// A moment strictly between `left` and `right` at which some job
    /// is live. Chance picks it from among the moments next to the
    /// endpoints of the jobs.
    pub fn gen_crit(jobs: &Instance, left: ByteSteps, right: ByteSteps) -> (res: ByteSteps)
        requires
            jobs.jobs.len() > 0,
            roomy(jobs.jobs@),
            all_within(jobs.jobs@, left, right),
        ensures
            left < res < right,
            someone_live(jobs.jobs@, res as int),
    {
        let pts = crit_candidates(&jobs.jobs, left, right);
        proof {
            assert(left <= jobs.jobs[0].birth && jobs.jobs[0].birth + 2 <= jobs.jobs[0].death
                && jobs.jobs[0].death <= right);
            assert(pts@.contains((jobs.jobs[0].birth + 1) as usize));
        }
        let k = random_below(pts.len());
        proof {
            let i = choose|i: int|
                0 <= i < jobs.jobs.len() && (pts[k as int] == (#[trigger] jobs.jobs[i]).birth + 1
                    || pts[k as int] == jobs.jobs[i].death - 1);
            assert(jobs.jobs[i].live_at(pts[k as int] as int));
        }
        pts[k]
    }
}

} // verus!
