use crate::helpe::{
    as_ints, indices_below, is_order_of, key_le, lemma_permutation_multiset, pick, ranked, sort_order,
};
use crate::job::{share, BoxIds, ByteSteps, Job, JobSet};
use crate::model::{
    are_boxes, contents_of, fits_box, lemma_load_within_total, lemma_rows_multiset_push,
    lemma_sizes_fit, load_at, unboxed,
};
use indexmap::IndexMap;
use std::sync::Arc;
use vstd::multiset::Multiset;
use vstd::prelude::*;

verus! {

/// A hash map that keeps its entries in the order in which they came.
#[verifier::external_type_specification]
#[verifier::external_body]
#[verifier::reject_recursive_types(K)]
#[verifier::reject_recursive_types(V)]
#[verifier::reject_recursive_types(S)]
pub struct ExIndexMap<K, V, S>(IndexMap<K, V, S>);

/// The entries of the map, in its order: the identifier of a job, and
/// the position of the job in the set it was taken from.
pub uninterp spec fn entries(m: IndexMap<u32, usize>) -> Seq<(u32, usize)>;

/// The entry at `p` has this key.
pub open spec fn key_at(es: Seq<(u32, usize)>, p: int, key: u32) -> bool {
    0 <= p < es.len() && es[p].0 == key
}

/// Some entry has this key.
pub open spec fn has_key(es: Seq<(u32, usize)>, key: u32) -> bool {
    exists|p: int| key_at(es, p, key)
}

/// `IndexMap::new`: a map without entries.
#[verifier::external_body]
pub(crate) fn index_new() -> (m: IndexMap<u32, usize>)
    ensures
        entries(m) == Seq::<(u32, usize)>::empty(),
{
    IndexMap::new()
}

/// `IndexMap::insert`: a new key goes last in order with its value; a
/// key that is there keeps its place and gets the value. The value that
/// was there comes back.
#[verifier::external_body]
pub(crate) fn index_insert(m: &mut IndexMap<u32, usize>, key: u32, value: usize) -> (was: Option<usize>)
    ensures
        !has_key(entries(*old(m)), key) ==> was is None && entries(*final(m)) == entries(*old(m)).push(
            (key, value),
        ),
        has_key(entries(*old(m)), key) ==> exists|p: int|
            #[trigger] key_at(entries(*old(m)), p, key) && was == Some(entries(*old(m))[p].1)
                && entries(*final(m)) == entries(*old(m)).update(p, (key, value)),
{
    m.insert(key, value)
}

/// `IndexMap::pop`: takes the last entry out and returns it; the others
/// keep their order. `None` where the map has no entry.
#[verifier::external_body]
pub(crate) fn index_pop(m: &mut IndexMap<u32, usize>) -> (res: Option<(u32, usize)>)
    ensures
        match res {
            Some(e) => entries(*old(m)).len() > 0 && e == entries(*old(m)).last() && entries(*final(m))
                == entries(*old(m)).drop_last(),
            None => entries(*old(m)).len() == 0 && entries(*final(m)) == entries(*old(m)),
        },
{
    m.pop()
}

/// `IndexMap::shift_remove`: takes the entry of the key out and returns
/// its value; the entries behind it move up, and all keep their order.
/// `None` where no entry has the key.
#[verifier::external_body]
pub(crate) fn index_shift_remove(m: &mut IndexMap<u32, usize>, key: u32) -> (res: Option<usize>)
    ensures
        match res {
            Some(v) => exists|p: int|
                #[trigger] key_at(entries(*old(m)), p, key) && entries(*old(m))[p].1 == v && entries(
                    *final(m),
                ) == entries(*old(m)).remove(p),
            None => !has_key(entries(*old(m)), key) && entries(*final(m)) == entries(*old(m)),
        },
{
    m.shift_remove(&key)
}

/// `IndexMap::len`: the number of entries.
#[verifier::external_body]
pub(crate) fn index_len(m: &IndexMap<u32, usize>) -> (n: usize)
    ensures
        n == entries(*m).len(),
{
    m.len()
}

/// The entries name jobs of `jobs` by identifier and position, and no
/// two have one key.
pub open spec fn indexes(es: Seq<(u32, usize)>, jobs: Seq<Arc<Job>>) -> bool {
    &&& forall|p: int| 0 <= p < es.len() ==> (#[trigger] es[p]).1 < jobs.len() && es[p].0 == jobs[es[p].1 as int].id
    &&& forall|p: int, q: int| 0 <= p < es.len() && 0 <= q < es.len() && p != q ==> (#[trigger] es[p]).0 != (#[trigger] es[q]).0
}

/// The two sequences hold the same entries.
pub open spec fn paired(a: Seq<(u32, usize)>, b: Seq<(u32, usize)>) -> bool {
    &&& a.len() == b.len()
    &&& forall|p: int| 0 <= p < a.len() ==> b.contains(#[trigger] a[p])
    &&& forall|p: int| 0 <= p < b.len() ==> a.contains(#[trigger] b[p])
}

/// In `whole`, the entry `a` comes before the entry `b`.
pub open spec fn pair_in(whole: Seq<(u32, usize)>, a: (u32, usize), b: (u32, usize)) -> bool {
    exists|p: int, q: int|
        #![trigger whole[p], whole[q]]
        0 <= p < q < whole.len() && whole[p] == a && whole[q] == b
}

/// The entries of `part` come in the order in which `whole` has them.
pub open spec fn in_order_of(part: Seq<(u32, usize)>, whole: Seq<(u32, usize)>) -> bool {
    forall|p: int, q: int|
        #![trigger part[p], part[q]]
        0 <= p < q < part.len() ==> pair_in(whole, part[p], part[q])
}

/// The positions that the last `k` entries name, the last entry first.
pub open spec fn tail_values(es: Seq<(u32, usize)>, k: int) -> Seq<int> {
    Seq::new(k as nat, |i: int| es[es.len() - 1 - i].1 as int)
}

/// Takes up to `to_take` entries from the end of `source`, and out of
/// `mirror` the entries of the same jobs. Returns the positions of the
/// jobs, in the order in which they were taken.
fn cut_strip(
    source: &mut IndexMap<u32, usize>,
    mirror: &mut IndexMap<u32, usize>,
    to_take: ByteSteps,
    Ghost(jobs): Ghost<Seq<Arc<Job>>>,
) -> (cut: Vec<usize>)
    requires
        indexes(entries(*old(source)), jobs),
        indexes(entries(*old(mirror)), jobs),
        paired(entries(*old(source)), entries(*old(mirror))),
    ensures
        cut.len() == if to_take <= entries(*old(source)).len() {
            to_take as int
        } else {
            entries(*old(source)).len() as int
        },
        as_ints(cut@) == tail_values(entries(*old(source)), cut.len() as int),
        entries(*final(source)) == entries(*old(source)).take(entries(*old(source)).len() - cut.len()),
        indexes(entries(*final(source)), jobs),
        indexes(entries(*final(mirror)), jobs),
        paired(entries(*final(source)), entries(*final(mirror))),
        forall|p: int|
            0 <= p < entries(*final(mirror)).len() ==> entries(*old(mirror)).contains(
                #[trigger] entries(*final(mirror))[p],
            ),
        in_order_of(entries(*final(mirror)), entries(*old(mirror))),
{
    let ghost source0 = entries(*source);
    let ghost mirror0 = entries(*mirror);
    let mut cut: Vec<usize> = Vec::new();
    let mut stripped: usize = 0;
    proof {
        assert forall|a: int, b: int|
            #![trigger mirror0[a], mirror0[b]]
            0 <= a < b < mirror0.len() implies pair_in(mirror0, mirror0[a], mirror0[b]) by {}
    }
    while stripped < to_take && index_len(source) > 0
        invariant
            stripped <= to_take,
            stripped <= source0.len(),
            cut.len() == stripped,
            indexes(source0, jobs),
            indexes(entries(*source), jobs),
            indexes(entries(*mirror), jobs),
            paired(entries(*source), entries(*mirror)),
            entries(*source) == source0.take(source0.len() - stripped),
            as_ints(cut@) == tail_values(source0, stripped as int),
            forall|p: int|
                0 <= p < entries(*mirror).len() ==> mirror0.contains(#[trigger] entries(*mirror)[p]),
            in_order_of(entries(*mirror), mirror0),
        decreases to_take - stripped,
    {
        let ghost src = entries(*source);
        let ghost mir = entries(*mirror);
        let (id, index) = match index_pop(source) {
            Some(e) => e,
            None => (0, 0),
        };
        let removed = index_shift_remove(mirror, id);
        cut.push(index);
        proof {
            let e = (id, index);
            assert(src.last() == e);
            assert(mir.contains(src[src.len() - 1]));
            let at = choose|at: int| 0 <= at < mir.len() && mir[at] == e;
            assert(key_at(mir, at, id));
            assert(removed is Some);
            let p = choose|p: int|
                #[trigger] key_at(mir, p, id) && mir[p].1 == removed->0 && entries(*mirror)
                    == mir.remove(p);
            assert(p == at);
            let src2 = entries(*source);
            let mir2 = entries(*mirror);
            assert(src2 =~= source0.take(source0.len() - stripped - 1));
            assert forall|q: int| 0 <= q < src2.len() implies mir2.contains(#[trigger] src2[q]) by {
                assert(src2[q] == src[q]);
                assert(mir.contains(src[q]));
                let w = choose|w: int| 0 <= w < mir.len() && mir[w] == src[q];
                assert(src[q].0 != src[src.len() - 1].0);
                if w < p {
                    assert(mir2[w] == mir[w]);
                } else {
                    assert(mir2[w - 1] == mir[w]);
                }
            }
            assert forall|q: int| 0 <= q < mir2.len() implies src2.contains(#[trigger] mir2[q]) by {
                let w = if q < p {
                    q
                } else {
                    q + 1
                };
                assert(mir2[q] == mir[w]);
                assert(src.contains(mir[w]));
                let v = choose|v: int| 0 <= v < src.len() && src[v] == mir[w];
                assert(mir[w].0 != mir[p].0);
                assert(src2[v] == src[v]);
            }
            assert forall|q: int| 0 <= q < mir2.len() implies mirror0.contains(#[trigger] mir2[q]) by {
                let w = if q < p {
                    q
                } else {
                    q + 1
                };
                assert(mir2[q] == mir[w]);
            }
            assert(in_order_of(mir2, mirror0)) by {
                assert forall|a: int, b: int|
                    #![trigger mir2[a], mir2[b]]
                    0 <= a < b < mir2.len() implies pair_in(mirror0, mir2[a], mir2[b]) by {
                    let wa = if a < p {
                        a
                    } else {
                        a + 1
                    };
                    let wb = if b < p {
                        b
                    } else {
                        b + 1
                    };
                    assert(mir2[a] == mir[wa]);
                    assert(mir2[b] == mir[wb]);
                    assert(pair_in(mirror0, mir[wa], mir[wb]));
                }
            }
            assert(indexes(mir2, jobs)) by {
                assert forall|a: int| 0 <= a < mir2.len() implies (#[trigger] mir2[a]).1 < jobs.len()
                    && mir2[a].0 == jobs[mir2[a].1 as int].id by {
                    let w = if a < p {
                        a
                    } else {
                        a + 1
                    };
                    assert(mir2[a] == mir[w]);
                }
                assert forall|a: int, b: int|
                    0 <= a < mir2.len() && 0 <= b < mir2.len() && a != b implies (#[trigger] mir2[a]).0
                    != (#[trigger] mir2[b]).0 by {
                    let wa = if a < p {
                        a
                    } else {
                        a + 1
                    };
                    let wb = if b < p {
                        b
                    } else {
                        b + 1
                    };
                    assert(mir2[a] == mir[wa]);
                    assert(mir2[b] == mir[wb]);
                }
            }
            assert(indexes(src2, jobs)) by {
                assert forall|a: int| 0 <= a < src2.len() implies (#[trigger] src2[a]).1 < jobs.len()
                    && src2[a].0 == jobs[src2[a].1 as int].id by {
                    assert(src2[a] == src[a]);
                }
                assert forall|a: int, b: int|
                    0 <= a < src2.len() && 0 <= b < src2.len() && a != b implies (#[trigger] src2[a]).0
                    != (#[trigger] src2[b]).0 by {
                    assert(src2[a] == src[a]);
                    assert(src2[b] == src[b]);
                }
            }
            assert(as_ints(cut@) =~= tail_values(source0, stripped + 1)) by {
                assert(src.last() == source0[source0.len() - 1 - stripped]);
                assert forall|i: int| 0 <= i < stripped implies as_ints(cut@)[i] == tail_values(
                    source0,
                    stripped as int,
                )[i] by {
                    assert(as_ints(cut@.drop_last())[i] == cut@[i]);
                }
            }
        }
        stripped += 1;
    }
    cut
}

/// A job as a strip holds it: made of a job, giving it back, and
/// ranked for the order in which the strip hands its jobs out.
pub trait New: Sized {
    /// The job inside.
    spec fn inner(&self) -> Arc<Job>;

    /// The rank of a job in the strip: the job of the least rank leaves
    /// first.
    spec fn rank_of(j: Job) -> usize;

    fn new(src: Arc<Job>) -> (res: Self)
        ensures
            res.inner() == src,
    ;

    fn get_inner_job(self) -> (res: Arc<Job>)
        ensures
            res == self.inner(),
    ;

    fn rank(&self) -> (r: usize)
        ensures
            r == Self::rank_of(*self.inner()),
    ;
}

/// A job of a vertical strip, which hands out the job that dies last
/// first.
pub struct VertStripJob {
    pub job: Arc<Job>,
}

/// A job of a horizontal strip, which hands out the job that is born
/// first first.
pub struct HorStripJob {
    pub job: Arc<Job>,
}

impl New for VertStripJob {
    open spec fn inner(&self) -> Arc<Job> {
        self.job
    }

    open spec fn rank_of(j: Job) -> usize {
        (usize::MAX - j.death) as usize
    }

    fn new(job: Arc<Job>) -> (res: Self) {
        Self { job }
    }

    fn get_inner_job(self) -> (res: Arc<Job>) {
        self.job
    }

    fn rank(&self) -> (r: usize) {
        usize::MAX - self.job.death
    }
}

impl New for HorStripJob {
    open spec fn inner(&self) -> Arc<Job> {
        self.job
    }

    open spec fn rank_of(j: Job) -> usize {
        j.birth
    }

    fn new(job: Arc<Job>) -> (res: Self) {
        Self { job }
    }

    fn get_inner_job(self) -> (res: Arc<Job>) {
        self.job
    }

    fn rank(&self) -> (r: usize) {
        self.job.birth
    }
}

/// The jobs of a strip.
pub open spec fn strip_jobs<T: New>(strip: Seq<T>) -> Seq<Arc<Job>> {
    Seq::new(strip.len(), |i: int| strip[i].inner())
}

/// The strip hands its jobs out by rank, the least first.
pub open spec fn by_rank<T: New>(strip: Seq<T>) -> bool {
    forall|a: int, b: int|
        #![trigger strip[a], strip[b]]
        0 <= a <= b < strip.len() ==> T::rank_of(*strip[a].inner()) <= T::rank_of(*strip[b].inner())
}

/// Cuts a strip of up to `to_take` jobs from the end of `source`, and
/// takes the same jobs out of `mirror`. The strip hands its jobs out by
/// rank.
pub fn strip_cuttin<T: New>(
    source: &mut IndexMap<u32, usize>,
    mirror: &mut IndexMap<u32, usize>,
    to_take: ByteSteps,
    jobs: &JobSet,
) -> (res: Vec<T>)
    requires
        indexes(entries(*old(source)), jobs@),
        indexes(entries(*old(mirror)), jobs@),
        paired(entries(*old(source)), entries(*old(mirror))),
    ensures
        res.len() == if to_take <= entries(*old(source)).len() {
            to_take as int
        } else {
            entries(*old(source)).len() as int
        },
        by_rank(res@),
        strip_jobs(res@).to_multiset() == pick(
            jobs@,
            tail_values(entries(*old(source)), res.len() as int),
        ).to_multiset(),
        entries(*final(source)) == entries(*old(source)).take(entries(*old(source)).len() - res.len()),
        indexes(entries(*final(source)), jobs@),
        indexes(entries(*final(mirror)), jobs@),
        paired(entries(*final(source)), entries(*final(mirror))),
        forall|p: int|
            0 <= p < entries(*final(mirror)).len() ==> entries(*old(mirror)).contains(
                #[trigger] entries(*final(mirror))[p],
            ),
        in_order_of(entries(*final(mirror)), entries(*old(mirror))),
{
    let ghost source0 = entries(*source);
    let cut = cut_strip(source, mirror, to_take, Ghost(jobs@));
    let ghost taken = as_ints(cut@);
    proof {
        assert forall|k: int| 0 <= k < cut.len() implies (#[trigger] cut[k]) < jobs.len() by {
            assert(taken[k] == cut[k]);
            assert(source0[source0.len() - 1 - k].1 < jobs.len());
        }
    }
    // The order in which the strip hands its jobs out.
    let mut keys: Vec<(usize, usize)> = Vec::new();
    let mut k: usize = 0;
    while k < cut.len()
        invariant
            k <= cut.len(),
            keys.len() == k,
            forall|w: int| 0 <= w < cut.len() ==> (#[trigger] cut[w]) < jobs.len(),
            forall|w: int| 0 <= w < k ==> #[trigger] keys[w] == (T::rank_of(*jobs[cut[w] as int]), 0usize),
        decreases cut.len() - k,
    {
        let probe = T::new(share(&jobs[cut[k]]));
        keys.push((probe.rank(), 0));
        k += 1;
    }
    let order = sort_order(&keys);
    let ghost perm = as_ints(order@);
    let mut res: Vec<T> = Vec::new();
    let mut k: usize = 0;
    while k < order.len()
        invariant
            k <= order.len(),
            order.len() == cut.len(),
            keys.len() == cut.len(),
            is_order_of(keys@, order@),
            perm == as_ints(order@),
            forall|w: int| 0 <= w < cut.len() ==> (#[trigger] cut[w]) < jobs.len(),
            forall|w: int| 0 <= w < keys.len() ==> #[trigger] keys[w] == (T::rank_of(*jobs[cut[w] as int]), 0usize),
            res.len() == k,
            forall|w: int| 0 <= w < k ==> (#[trigger] res[w]).inner() == jobs[cut[order[w] as int] as int],
        decreases order.len() - k,
    {
        proof {
            assert(0 <= perm[k as int] < cut.len());
        }
        res.push(T::new(share(&jobs[cut[order[k]]])));
        k += 1;
    }
    proof {
        let cut_jobs = pick(jobs@, taken);
        assert(strip_jobs(res@) =~= pick(cut_jobs, perm)) by {
            assert forall|w: int| 0 <= w < res.len() implies strip_jobs(res@)[w] == pick(
                cut_jobs,
                perm,
            )[w] by {
                assert(perm[w] == order[w]);
                assert(taken[perm[w]] == cut[order[w] as int]);
            }
        }
        lemma_permutation_multiset(cut_jobs, perm);
        assert forall|a: int, b: int|
            #![trigger res[a], res[b]]
            0 <= a <= b < res.len() implies T::rank_of(*res[a].inner()) <= T::rank_of(
            *res[b].inner(),
        ) by {
            assert(key_le(ranked(keys@, order[a] as int), ranked(keys@, order[b] as int)));
            assert(perm[a] == order[a]);
            assert(perm[b] == order[b]);
            assert(keys[order[a] as int] == (T::rank_of(*jobs[cut[order[a] as int] as int]), 0usize));
            assert(keys[order[b] as int] == (T::rank_of(*jobs[cut[order[b] as int] as int]), 0usize));
        }
    }
    res
}

/// All the jobs of all the strips.
pub open spec fn strips_multiset<T: New>(strips: Seq<Vec<T>>) -> Multiset<Arc<Job>>
    decreases strips.len(),
{
    if strips.len() == 0 {
        Multiset::empty()
    } else {
        strips_multiset(strips.drop_last()).add(strip_jobs(strips.last()@).to_multiset())
    }
}

/// How many jobs the strips hold.
pub open spec fn strips_count<T: New>(strips: Seq<Vec<T>>) -> nat
    decreases strips.len(),
{
    if strips.len() == 0 {
        0
    } else {
        strips_count(strips.drop_last()) + strips.last()@.len()
    }
}

/// Every job of every strip fits a box, in groups of `group_size`.
pub open spec fn strips_fit<T: New>(strips: Seq<Vec<T>>, group_size: usize, box_size: usize) -> bool {
    forall|s: int| 0 <= s < strips.len() ==> fits_box(strip_jobs((#[trigger] strips[s])@), group_size, box_size)
}

/// How many boxes `n` jobs make in groups of `g`.
pub open spec fn group_count(n: nat, g: nat) -> nat
    decreases n,
{
    if n == 0 || g == 0 {
        0
    } else if n <= g {
        1
    } else {
        1 + group_count((n - g) as nat, g)
    }
}

/// The jobs of the `b`th group: `g` of them, or what is left.
pub open spec fn group_at(members: Seq<Arc<Job>>, g: nat, b: int) -> Seq<Arc<Job>> {
    members.subrange(
        b * g,
        if (b + 1) * g <= members.len() {
            (b + 1) * g
        } else {
            members.len() as int
        },
    )
}

/// The jobs in groups of `g`, in their order; what is left at the end is
/// a group of its own.
pub open spec fn groups_of(members: Seq<Arc<Job>>, g: nat) -> Seq<Seq<Arc<Job>>> {
    Seq::new(group_count(members.len(), g), |b: int| group_at(members, g, b))
}

/// The groups of all the strips, strip by strip.
pub open spec fn all_groups<T: New>(strips: Seq<Vec<T>>, g: nat) -> Seq<Seq<Arc<Job>>>
    decreases strips.len(),
{
    if strips.len() == 0 {
        Seq::empty()
    } else {
        all_groups(strips.drop_last(), g) + groups_of(strip_jobs(strips.last()@), g)
    }
}

/// Every group but the last begins before the jobs end.
pub proof fn lemma_group_start(n: nat, g: nat, b: int)
    requires
        g > 0,
        0 <= b < group_count(n, g),
    ensures
        b * g < n,
    decreases n,
{
    if n <= g {
        assert(b * g == 0) by (nonlinear_arith)
            requires
                b == 0,
        ;
    } else if b == 0 {
        assert(b * g == 0) by (nonlinear_arith)
            requires
                b == 0,
        ;
    } else {
        lemma_group_start((n - g) as nat, g, b - 1);
        assert(b * g == (b - 1) * g + g) by (nonlinear_arith);
    }
}

/// Every group of the strips holds a job, and no more than `g` jobs.
pub proof fn lemma_groups_small<T: New>(strips: Seq<Vec<T>>, g: nat)
    requires
        g > 0,
    ensures
        forall|b: int|
            0 <= b < all_groups(strips, g).len() ==> 0 < (#[trigger] all_groups(strips, g)[b]).len() <= g,
    decreases strips.len(),
{
    if strips.len() > 0 {
        lemma_groups_small(strips.drop_last(), g);
        let before = all_groups(strips.drop_last(), g);
        let members = strip_jobs(strips.last()@);
        let last = groups_of(members, g);
        assert forall|b: int| 0 <= b < all_groups(strips, g).len() implies 0 < (#[trigger] all_groups(
            strips,
            g,
        )[b]).len() <= g by {
            if b < before.len() {
                assert(all_groups(strips, g)[b] == before[b]);
            } else {
                let c = b - before.len();
                assert(all_groups(strips, g)[b] == last[c]);
                assert(last[c] == group_at(members, g, c));
                lemma_group_start(members.len(), g, c);
                assert((c + 1) * g == c * g + g) by (nonlinear_arith);
                assert(c * g >= 0) by (nonlinear_arith)
                    requires
                        c >= 0,
                        g > 0,
                ;
            }
        }
    }
}

/// `nb` groups of `g`, the last one full or not, hold `n` jobs.
pub proof fn lemma_group_count(n: nat, g: nat, nb: nat)
    requires
        g > 0,
        (nb == 0 && n == 0) || (nb > 0 && (nb - 1) * g < n <= nb * g),
    ensures
        group_count(n, g) == nb,
    decreases nb,
{
    if nb == 0 {
    } else if nb == 1 {
        assert(1 * g == g) by (nonlinear_arith);
        assert((nb - 1) * g == 0) by (nonlinear_arith)
            requires
                nb == 1,
        ;
    } else {
        assert((nb - 1) * g >= g) by (nonlinear_arith)
            requires
                nb >= 2,
                g > 0,
        ;
        assert((nb - 2) * g == (nb - 1) * g - g) by (nonlinear_arith);
        assert((nb - 1) * g == nb * g - g) by (nonlinear_arith);
        lemma_group_count((n - g) as nat, g, (nb - 1) as nat);
    }
}

/// Boxes the jobs of each strip in groups of `group_size`, in the order
/// in which the strip hands them out; what is left of a strip at its end
/// is a box of its own. Every box has the size `box_size`.
pub fn strip_box_core<T: New>(
    strips: Vec<Vec<T>>,
    group_size: ByteSteps,
    box_size: ByteSteps,
    ids: &mut BoxIds,
) -> (res: JobSet)
    requires
        group_size > 0,
        strips_fit(strips@, group_size, box_size),
        old(ids).left() >= strips_count(strips@),
    ensures
        are_boxes(res@, box_size),
        unboxed(res@) == strips_multiset(strips@),
        contents_of(res@) == all_groups(strips@, group_size as nat),
        res.len() <= strips_count(strips@),
        final(ids).left() == old(ids).left() - res.len(),
{
    let mut res: JobSet = Vec::new();
    let mut strips = strips;
    let ghost all = strips@;
    let mut s: usize = 0;
    proof {
        assert(all.take(0) =~= Seq::<Vec<T>>::empty());
        assert(contents_of(res@) =~= Seq::<Seq<Arc<Job>>>::empty());
    }
    while s < strips.len()
        invariant
            s <= strips.len(),
            group_size > 0,
            strips@.len() == all.len(),
            forall|w: int| s <= w < strips.len() ==> #[trigger] strips[w] == all[w],
            strips_fit(all, group_size, box_size),
            are_boxes(res@, box_size),
            unboxed(res@) == strips_multiset(all.take(s as int)),
            contents_of(res@) == all_groups(all.take(s as int), group_size as nat),
            res.len() <= strips_count(all.take(s as int)),
            ids.left() == old(ids).left() - res.len(),
            old(ids).left() >= strips_count(all),
            strips_count(all.take(s as int)) <= strips_count(all),
        decreases strips.len() - s,
    {
        let mut strip: Vec<T> = Vec::new();
        std::mem::swap(&mut strip, &mut strips[s]);
        let ghost members = strip_jobs(strip@);
        let ghost before = unboxed(res@);
        let ghost made = res.len();
        let ghost rows0 = contents_of(res@);
        proof {
            assert(strip == all[s as int]);
            assert(all.take(s + 1).drop_last() =~= all.take(s as int));
            assert(all.take(s + 1).last() == all[s as int]);
            lemma_strips_count_take(all, s + 1);
            assert(fits_box(members, group_size, box_size));
        }
        // Hand the jobs out from the front: turn the strip round and pop.
        let mut turned: Vec<T> = Vec::new();
        while strip.len() > 0
            invariant
                strip.len() + turned.len() == members.len(),
                forall|w: int| 0 <= w < strip.len() ==> (#[trigger] strip[w]).inner() == members[w],
                forall|w: int|
                    0 <= w < turned.len() ==> (#[trigger] turned[w]).inner() == members[members.len()
                        - 1 - w],
            decreases strip.len(),
        {
            let x = strip.pop().unwrap();
            turned.push(x);
        }
        let mut buf: JobSet = Vec::new();
        let ghost mut boxed_so_far: Seq<Arc<Job>> = Seq::empty();
        proof {
            vstd::seq_lib::to_multiset_len(Seq::<Arc<Job>>::empty());
            vstd::multiset::lemma_multiset_empty_len(Seq::<Arc<Job>>::empty().to_multiset());
            assert(members.take(0) =~= Seq::<Arc<Job>>::empty());
        }
        while turned.len() > 0
            invariant
                group_size > 0,
                turned.len() <= members.len(),
                forall|w: int|
                    0 <= w < turned.len() ==> (#[trigger] turned[w]).inner() == members[members.len()
                        - 1 - w],
                fits_box(members, group_size, box_size),
                buf.len() < group_size,
                turned.len() == 0 ==> buf.len() == 0,
                buf.len() <= members.len() - turned.len(),
                buf@ == members.subrange(
                    members.len() - turned.len() - buf.len(),
                    members.len() - turned.len(),
                ),
                are_boxes(res@, box_size),
                unboxed(res@).add(buf@.to_multiset()) == before.add(
                    members.take(members.len() - turned.len()).to_multiset(),
                ),
                res.len() - made + buf.len() <= members.len() - turned.len(),
                made <= res.len(),
                made == rows0.len(),
                forall|i: int| 0 <= i < made ==> contents_of(res@)[i] == #[trigger] rows0[i],
                forall|b: int|
                    0 <= b < res.len() - made ==> #[trigger] contents_of(res@)[made + b] == group_at(
                        members,
                        group_size as nat,
                        b,
                    ),
                turned.len() > 0 ==> (res.len() - made) * group_size == members.len() - turned.len()
                    - buf.len(),
                turned.len() == 0 ==> (res.len() == made && members.len() == 0) || (res.len() > made && (
                res.len() - made - 1) * group_size < members.len() <= (res.len() - made) * group_size),
                ids.left() == old(ids).left() - res.len(),
                old(ids).left() >= made + members.len(),
            decreases turned.len(),
        {
            let ghost done = members.len() - turned.len();
            let ghost held = buf@;
            let ghost nb = res.len() - made;
            proof {
                assert(nb * group_size == done - buf.len());
            }
            let x = turned.pop().unwrap();
            let j = x.get_inner_job();
            proof {
                assert(j == members[done]);
                assert(members.take(done + 1) =~= members.take(done).push(j));
                vstd::seq_lib::to_multiset_build(members.take(done), j);
                vstd::seq_lib::to_multiset_build(buf@, j);
                assert(buf@.push(j) =~= members.subrange(done - buf.len(), done + 1));
            }
            buf.push(j);
            proof {
                broadcast use vstd::multiset::group_multiset_axioms;

                assert(buf@ == held.push(j));
                assert(buf@.to_multiset() =~= held.to_multiset().insert(j));
                assert(members.take(done + 1).to_multiset() =~= members.take(done).to_multiset().insert(
                    j,
                ));
                crate::model::lemma_add_insert(
                    unboxed(res@),
                    held.to_multiset(),
                    before,
                    members.take(done).to_multiset(),
                    j,
                );
                assert(unboxed(res@).add(buf@.to_multiset()) =~= before.add(
                    members.take(done + 1).to_multiset(),
                ));
            }
            if buf.len() == group_size || turned.len() == 0 {
                let ghost group = buf@;
                let ghost rows = contents_of(res@);
                proof {
                    assert forall|i: int| 0 <= i < group.len() implies (#[trigger] group[i]).size
                        * group_size <= box_size by {
                        assert(group[i] == members[done + 1 - group.len() + i]);
                    }
                    lemma_sizes_fit(group, group_size as int, box_size as int);
                    assert forall|t: int| #[trigger] load_at(group, t) <= box_size by {
                        lemma_load_within_total(group, t);
                    }
                }
                let boxed = Job::new_box(buf, box_size, ids);
                res.push(Arc::new(boxed));
                buf = Vec::new();
                proof {
                    assert(contents_of(res@) =~= rows.push(group));
                    assert((nb + 1) * group_size == nb * group_size + group_size) by (nonlinear_arith);
                    assert(group == group_at(members, group_size as nat, nb)) by {
                        assert(group == members.subrange(done + 1 - group.len(), done + 1));
                        assert(done + 1 - group.len() == nb * group_size);
                    }
                    assert forall|b: int| 0 <= b < res.len() - made implies #[trigger] contents_of(
                        res@,
                    )[made + b] == group_at(members, group_size as nat, b) by {
                        if b < nb {
                            assert(contents_of(res@)[made + b] == rows[made + b]);
                        }
                    }
                    assert forall|i: int| 0 <= i < made implies contents_of(res@)[i] == #[trigger] rows0[i] by {
                        assert(contents_of(res@)[i] == rows[i]);
                    }
                    lemma_rows_multiset_push(rows, group);
                    vstd::seq_lib::to_multiset_len(buf@);
                    vstd::multiset::lemma_multiset_empty_len(buf@.to_multiset());
                    assert(buf@ =~= members.subrange(done + 1, done + 1));
                    broadcast use vstd::multiset::group_multiset_axioms;

                    assert(buf@.to_multiset() =~= Multiset::empty());
                    assert(unboxed(res@).add(buf@.to_multiset()) =~= before.add(
                        members.take(done + 1).to_multiset(),
                    ));
                }
            }
        }
        proof {
            assert(members.take(members.len() as int) =~= members);
            vstd::seq_lib::to_multiset_len(buf@);
            vstd::multiset::lemma_multiset_empty_len(buf@.to_multiset());
            assert(buf@.to_multiset() =~= Multiset::empty());
            assert(unboxed(res@) =~= unboxed(res@).add(buf@.to_multiset())) by {
                broadcast use vstd::multiset::group_multiset_axioms;

            }
            assert(unboxed(res@) =~= strips_multiset(all.take(s + 1)));
            lemma_group_count(members.len(), group_size as nat, (res.len() - made) as nat);
            let groups = groups_of(members, group_size as nat);
            assert(contents_of(res@).len() == rows0.len() + groups.len());
            assert forall|i: int| 0 <= i < contents_of(res@).len() implies contents_of(res@)[i] == (rows0
                + groups)[i] by {
                if i < made {
                    assert(contents_of(res@)[i] == rows0[i]);
                } else {
                    assert(contents_of(res@)[made + (i - made)] == group_at(
                        members,
                        group_size as nat,
                        i - made,
                    ));
                }
            }
            assert(contents_of(res@) =~= rows0 + groups);
        }
        s += 1;
    }
    proof {
        assert(all.take(all.len() as int) =~= all);
    }
    res
}

/// The first strips hold no more jobs than all of them.
pub proof fn lemma_strips_count_take<T: New>(strips: Seq<Vec<T>>, k: int)
    requires
        0 <= k <= strips.len(),
    ensures
        strips_count(strips.take(k)) <= strips_count(strips),
    decreases strips.len() - k,
{
    if k < strips.len() {
        assert(strips.take(k + 1).drop_last() =~= strips.take(k));
        lemma_strips_count_take(strips, k + 1);
    } else {
        assert(strips.take(k) =~= strips);
    }
}

/// Boxes all the strips, the vertical ones first: the jobs of each strip
/// in groups of `group_size`, every box of the size `box_size`.
pub fn strip_boxin(
    verticals: Vec<Vec<VertStripJob>>,
    horizontals: Vec<Vec<HorStripJob>>,
    group_size: ByteSteps,
    box_size: ByteSteps,
    ids: &mut BoxIds,
) -> (res: JobSet)
    requires
        group_size > 0,
        strips_fit(verticals@, group_size, box_size),
        strips_fit(horizontals@, group_size, box_size),
        old(ids).left() >= strips_count(verticals@) + strips_count(horizontals@),
    ensures
        are_boxes(res@, box_size),
        unboxed(res@) == strips_multiset(verticals@).add(strips_multiset(horizontals@)),
        contents_of(res@) == all_groups(verticals@, group_size as nat) + all_groups(
            horizontals@,
            group_size as nat,
        ),
        res.len() <= strips_count(verticals@) + strips_count(horizontals@),
        final(ids).left() == old(ids).left() - res.len(),
{
    let mut res_set = strip_box_core(verticals, group_size, box_size, ids);
    let mut rest = strip_box_core(horizontals, group_size, box_size, ids);
    proof {
        assert(contents_of(res_set@ + rest@) =~= contents_of(res_set@) + contents_of(rest@));
        crate::model::lemma_rows_multiset_concat(contents_of(res_set@), contents_of(rest@));
    }
    res_set.append(&mut rest);
    res_set
}

/// Some entry names the position `v`.
pub open spec fn holds_value(es: Seq<(u32, usize)>, v: int) -> bool {
    exists|p: int| 0 <= p < es.len() && (#[trigger] es[p]).1 == v
}

/// Paired sequences name the same positions.
pub proof fn lemma_paired_holds(a: Seq<(u32, usize)>, b: Seq<(u32, usize)>, v: int)
    requires
        paired(a, b),
    ensures
        holds_value(a, v) <==> holds_value(b, v),
{
    if holds_value(a, v) {
        let p = choose|p: int| 0 <= p < a.len() && (#[trigger] a[p]).1 == v;
        assert(b.contains(a[p]));
        let q = choose|q: int| 0 <= q < b.len() && b[q] == a[p];
        assert(b[q].1 == v);
    }
    if holds_value(b, v) {
        let p = choose|p: int| 0 <= p < b.len() && (#[trigger] b[p]).1 == v;
        assert(a.contains(b[p]));
        let q = choose|q: int| 0 <= q < a.len() && a[q] == b[p];
        assert(a[q].1 == v);
    }
}

/// What a cut does to the account of the positions taken so far: the
/// positions of the cut are new, and with them the account holds just
/// the positions that the source names no more.
pub proof fn lemma_cut_step(
    jobs: Seq<Arc<Job>>,
    before: Seq<(u32, usize)>,
    after: Seq<(u32, usize)>,
    k: int,
    taken: Seq<int>,
)
    requires
        indexes(before, jobs),
        0 <= k <= before.len(),
        after == before.take(before.len() - k),
        taken.no_duplicates(),
        indices_below(taken, jobs.len() as int),
        forall|v: int| 0 <= v < jobs.len() ==> (taken.contains(v) <==> !holds_value(before, v)),
    ensures
        (taken + tail_values(before, k)).no_duplicates(),
        indices_below(taken + tail_values(before, k), jobs.len() as int),
        forall|v: int|
            0 <= v < jobs.len() ==> ((taken + tail_values(before, k)).contains(v) <==> !holds_value(
                after,
                v,
            )),
{
    let cut = tail_values(before, k);
    let all = taken + cut;
    let n = before.len() as int;
    assert forall|i: int| 0 <= i < all.len() implies 0 <= #[trigger] all[i] < jobs.len() by {
        if i >= taken.len() {
            assert(before[n - 1 - (i - taken.len())].1 < jobs.len());
        }
    }
    assert forall|a: int, b: int| 0 <= a < all.len() && 0 <= b < all.len() && a != b implies all[a]
        != all[b] by {
        if a >= taken.len() && b >= taken.len() {
            let pa = n - 1 - (a - taken.len());
            let pb = n - 1 - (b - taken.len());
            assert(before[pa].0 == jobs[before[pa].1 as int].id);
            assert(before[pb].0 == jobs[before[pb].1 as int].id);
            assert(before[pa].0 != before[pb].0);
        } else if a >= taken.len() {
            let pa = n - 1 - (a - taken.len());
            assert(before[pa].1 == all[a]);
            assert(holds_value(before, all[a]));
            assert(taken.contains(taken[b]));
        } else if b >= taken.len() {
            let pb = n - 1 - (b - taken.len());
            assert(before[pb].1 == all[b]);
            assert(holds_value(before, all[b]));
            assert(taken.contains(taken[a]));
        }
    }
    assert forall|v: int| 0 <= v < jobs.len() implies (all.contains(v) <==> !holds_value(after, v)) by {
        if all.contains(v) {
            let i = choose|i: int| 0 <= i < all.len() && all[i] == v;
            if holds_value(after, v) {
                let p = choose|p: int| 0 <= p < after.len() && (#[trigger] after[p]).1 == v;
                assert(before[p].1 == v);
                assert(holds_value(before, v));
                if i < taken.len() {
                    assert(taken.contains(taken[i]));
                } else {
                    let pi = n - 1 - (i - taken.len());
                    assert(before[pi].0 == jobs[before[pi].1 as int].id);
                    assert(before[p].0 == jobs[before[p].1 as int].id);
                    assert(before[p].0 != before[pi].0);
                }
            }
        } else {
            // not taken before, and not in the cut
            assert(!taken.contains(v)) by {
                if taken.contains(v) {
                    let i = choose|i: int| 0 <= i < taken.len() && taken[i] == v;
                    assert(all[i] == v);
                }
            }
            assert(holds_value(before, v));
            let p = choose|p: int| 0 <= p < before.len() && (#[trigger] before[p]).1 == v;
            if p >= n - k {
                assert(all[taken.len() + (n - 1 - p)] == v);
            }
            assert(after[p].1 == v);
        }
    }
}

/// The jobs at positions listed one after the other are the jobs at the
/// first positions and the jobs at the others.
pub proof fn lemma_pick_concat(jobs: Seq<Arc<Job>>, a: Seq<int>, b: Seq<int>)
    ensures
        pick(jobs, a + b) =~= pick(jobs, a) + pick(jobs, b),
        pick(jobs, a + b).to_multiset() == pick(jobs, a).to_multiset().add(pick(jobs, b).to_multiset()),
{
    assert(pick(jobs, a + b) =~= pick(jobs, a) + pick(jobs, b));
    vstd::seq_lib::lemma_multiset_commutative(pick(jobs, a), pick(jobs, b));
}

} // verus!
