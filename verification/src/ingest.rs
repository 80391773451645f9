use crate::helpe::{
    birth_pos, death_at, death_pos, indices_below, is_traversal, lemma_birth_before_death,
    lemma_full_cover_len, lemma_positions_unique, Event, EventKind,
};
use crate::job::{ByteSteps, Job, JobSet};
use crate::jobset::get_events;
use crate::model::proper_lifetimes;
use std::sync::Arc;
use vstd::prelude::*;

verus! {

/// The kinds of input that jobs are read from.
#[derive(Copy, Clone, PartialEq, Eq, PartialOrd, Ord, Debug)]
pub enum InpuType {
    /// Comma-separated values, lifetimes without their endpoints.
    ExCSV,
    /// Comma-separated values, lifetimes with their start.
    InExCSV,
    /// Comma-separated values, lifetimes with both endpoints.
    InCSV,
    /// Binary records of eight words each.
    PLC,
    /// A binary trace, which has to be adapted first.
    TRC,
}

/// The words of a binary record.
pub const PLC_FIELDS_NUM: usize = 8;

/// The number that the bytes spell, the first byte the most significant.
pub open spec fn be_value(bytes: Seq<u8>) -> nat
    decreases bytes.len(),
{
    if bytes.len() == 0 {
        0
    } else {
        be_value(bytes.drop_last()) * 256 + bytes.last() as nat
    }
}

/// The word of eight bytes that begins at `at`.
pub fn read_word(d: &[u8], at: usize) -> (w: u64)
    requires
        at + 8 <= d.len(),
    ensures
        w == be_value(d@.subrange(at as int, at + 8)),
{
    let ghost word = d@.subrange(at as int, at + 8);
    let mut w: u64 = 0;
    let mut i: usize = 0;
    proof {
        assert(word.take(0) =~= Seq::<u8>::empty());
    }
    while i < 8
        invariant
            i <= 8,
            at + 8 <= d.len(),
            word == d@.subrange(at as int, at + 8),
            w == be_value(word.take(i as int)),
            w < pow256(i as nat),
        decreases 8 - i,
    {
        proof {
            assert(word.take(i + 1).drop_last() =~= word.take(i as int));
            assert(word.take(i + 1).last() == d[at + i]);
            lemma_pow256(i as nat);
        }
        w = w * 256 + d[at + i] as u64;
        i += 1;
    }
    proof {
        assert(word.take(8) =~= word);
    }
    w
}

/// 256 to the power of `n`.
pub open spec fn pow256(n: nat) -> nat
    decreases n,
{
    if n == 0 {
        1
    } else {
        256 * pow256((n - 1) as nat)
    }
}

/// Up to eight bytes spell a number within the machine's long word.
proof fn lemma_pow256(n: nat)
    requires
        n < 8,
    ensures
        pow256(n) * 256 == pow256(n + 1),
        pow256(n + 1) <= 0x1_0000_0000_0000_0000,
{
    reveal_with_fuel(pow256, 10);
}

/// What a binary record holds: identifier, birth, death and size in its
/// first four words, the alignment in the seventh, where zero stands for
/// none, and the size asked for in the eighth.
pub open spec fn record_word(d: Seq<u8>, k: int) -> nat {
    be_value(d.subrange(8 * k, 8 * k + 8))
}

/// The job that a binary record of eight words describes; `None` where
/// the identifier is beyond 32 bits or another word beyond the machine
/// word.
pub fn plc_job(d: &[u8]) -> (res: Option<Job>)
    requires
        d.len() == 8 * PLC_FIELDS_NUM,
    ensures
        res is Some <==> record_word(d@, 0) <= u32::MAX && record_word(d@, 1) <= usize::MAX
            && record_word(d@, 2) <= usize::MAX && record_word(d@, 3) <= usize::MAX && record_word(
            d@,
            6,
        ) <= usize::MAX && record_word(d@, 7) <= usize::MAX,
        res matches Some(j) ==> {
            &&& j.id == record_word(d@, 0)
            &&& j.birth == record_word(d@, 1)
            &&& j.death == record_word(d@, 2)
            &&& j.size == record_word(d@, 3)
            &&& j.alignment == if record_word(d@, 6) == 0 {
                None
            } else {
                Some(record_word(d@, 6) as usize)
            }
            &&& j.req_size == record_word(d@, 7)
            &&& j.contents is None
            &&& j.originals_boxed == 0
        },
{
    let id = read_word(d, 0);
    let birth = read_word(d, 8);
    let death = read_word(d, 16);
    let size = read_word(d, 24);
    let alignment = read_word(d, 48);
    let req_size = read_word(d, 56);
    let top = usize::MAX as u64;
    if id > u32::MAX as u64 || birth > top || death > top || size > top || alignment > top || req_size
        > top {
        return None;
    }
    let mut baby_job = Job::new();
    baby_job.id = id as u32;
    baby_job.birth = birth as usize;
    baby_job.death = death as usize;
    baby_job.size = size as usize;
    if alignment != 0 {
        baby_job.alignment = Some(alignment as usize);
    }
    baby_job.req_size = req_size as usize;
    Some(baby_job)
}

/// The byte is a decimal digit.
pub open spec fn is_digit(b: u8) -> bool {
    48 <= b <= 57
}

/// The number that the digits spell.
pub open spec fn digits_value(s: Seq<u8>) -> nat
    decreases s.len(),
{
    if s.len() == 0 {
        0
    } else {
        digits_value(s.drop_last()) * 10 + (s.last() - 48) as nat
    }
}

/// The bytes are one digit or more.
pub open spec fn all_digits(s: Seq<u8>) -> bool {
    s.len() > 0 && forall|i: int| 0 <= i < s.len() ==> is_digit(#[trigger] s[i])
}

/// The digits of a field: the field itself, or what follows its plus
/// sign.
pub open spec fn unsigned(s: Seq<u8>) -> Seq<u8> {
    if s.len() > 0 && s[0] == 43 {
        s.subrange(1, s.len() as int)
    } else {
        s
    }
}

/// The number that the digits spell grows with every digit.
proof fn lemma_digits_grow(s: Seq<u8>, k: int)
    requires
        0 <= k <= s.len(),
        forall|i: int| 0 <= i < s.len() ==> is_digit(#[trigger] s[i]),
    ensures
        digits_value(s.take(k)) <= digits_value(s),
    decreases s.len() - k,
{
    if k < s.len() {
        assert(s.take(k + 1).drop_last() =~= s.take(k));
        assert(is_digit(s[k]));
        lemma_digits_grow(s, k + 1);
    } else {
        assert(s.take(k) =~= s);
    }
}

/// Reads a decimal number, with or without a plus sign before it, from
/// the field `line[from..to]`; `None` where the field is no such number
/// or the number is beyond the machine word.
pub fn parse_number(line: &[u8], from: usize, to: usize) -> (res: Option<usize>)
    requires
        from <= to <= line.len(),
    ensures
        res is Some <==> all_digits(unsigned(line@.subrange(from as int, to as int))) && digits_value(
            unsigned(line@.subrange(from as int, to as int)),
        ) <= usize::MAX,
        res matches Some(v) ==> v == digits_value(unsigned(line@.subrange(from as int, to as int))),
{
    let ghost field = line@.subrange(from as int, to as int);
    let mut at = from;
    if at < to && line[at] == 43 {
        at += 1;
    }
    let ghost digits = unsigned(field);
    proof {
        assert(digits =~= line@.subrange(at as int, to as int));
    }
    if at == to {
        return None;
    }
    let start = at;
    let mut value: usize = 0;
    proof {
        assert(digits.take(0) =~= Seq::<u8>::empty());
    }
    while at < to
        invariant
            start <= at <= to,
            to <= line.len(),
            digits == line@.subrange(start as int, to as int),
            digits == unsigned(line@.subrange(from as int, to as int)),
            from <= start,
            forall|i: int| 0 <= i < at - start ==> is_digit(#[trigger] digits[i]),
            value == digits_value(digits.take(at - start)),
        decreases to - at,
    {
        let b = line[at];
        proof {
            assert(digits[at - start] == b);
            assert(digits.take(at - start + 1).drop_last() =~= digits.take(at - start));
        }
        if b < 48 || b > 57 {
            proof {
                assert(!is_digit(digits[at - start]));
            }
            return None;
        }
        let digit = (b - 48) as usize;
        let next = match value.checked_mul(10) {
            Some(v) => v.checked_add(digit),
            None => None,
        };
        match next {
            Some(v) => {
                value = v;
            },
            None => {
                proof {
                    if all_digits(digits) {
                        lemma_digits_grow(digits, at - start + 1);
                    }
                }
                return None;
            },
        }
        at += 1;
    }
    proof {
        assert(digits.take(digits.len() as int) =~= digits);
    }
    Some(value)
}

/// Where the field that begins at `from` ends: at the next comma, or at
/// the end of the line.
pub open spec fn field_end(line: Seq<u8>, from: int) -> int
    decreases line.len() - from,
{
    if from >= line.len() || line[from] == 44 {
        from
    } else {
        field_end(line, from + 1)
    }
}

/// Finds the end of the field that begins at `from`.
pub fn find_field_end(line: &[u8], from: usize) -> (end: usize)
    requires
        from <= line.len(),
    ensures
        end == field_end(line@, from as int),
        from <= end <= line.len(),
{
    let mut at = from;
    while at < line.len() && line[at] != 44
        invariant
            from <= at <= line.len(),
            field_end(line@, from as int) == field_end(line@, at as int),
        decreases line.len() - at,
    {
        at += 1;
    }
    at
}

/// Birth, death and size as a line of comma-separated values gives them
/// in its second, third and fourth field; the first field is passed
/// over. `None` where the line has fewer fields or one of the three is
/// no number.
pub fn csv_fields(line: &[u8]) -> (res: Option<(ByteSteps, ByteSteps, ByteSteps)>)
    ensures
        res is Some <==> {
            let e0 = field_end(line@, 0);
            let e1 = field_end(line@, e0 + 1);
            let e2 = field_end(line@, e1 + 1);
            let e3 = field_end(line@, e2 + 1);
            &&& e0 < line.len() && e1 < line.len() && e2 < line.len()
            &&& all_digits(unsigned(line@.subrange(e0 + 1, e1)))
            &&& all_digits(unsigned(line@.subrange(e1 + 1, e2)))
            &&& all_digits(unsigned(line@.subrange(e2 + 1, e3)))
            &&& digits_value(unsigned(line@.subrange(e0 + 1, e1))) <= usize::MAX
            &&& digits_value(unsigned(line@.subrange(e1 + 1, e2))) <= usize::MAX
            &&& digits_value(unsigned(line@.subrange(e2 + 1, e3))) <= usize::MAX
        },
        res matches Some(v) ==> {
            let e0 = field_end(line@, 0);
            let e1 = field_end(line@, e0 + 1);
            let e2 = field_end(line@, e1 + 1);
            let e3 = field_end(line@, e2 + 1);
            &&& e2 < line.len()
            &&& v.0 == digits_value(unsigned(line@.subrange(e0 + 1, e1)))
            &&& v.1 == digits_value(unsigned(line@.subrange(e1 + 1, e2)))
            &&& v.2 == digits_value(unsigned(line@.subrange(e2 + 1, e3)))
            &&& all_digits(unsigned(line@.subrange(e0 + 1, e1)))
            &&& all_digits(unsigned(line@.subrange(e1 + 1, e2)))
            &&& all_digits(unsigned(line@.subrange(e2 + 1, e3)))
        },
{
    let e0 = find_field_end(line, 0);
    if e0 >= line.len() {
        return None;
    }
    let e1 = find_field_end(line, e0 + 1);
    if e1 >= line.len() {
        return None;
    }
    let e2 = find_field_end(line, e1 + 1);
    if e2 >= line.len() {
        return None;
    }
    let e3 = find_field_end(line, e2 + 1);
    let birth = match parse_number(line, e0 + 1, e1) {
        Some(v) => v,
        None => { return None; },
    };
    let death = match parse_number(line, e1 + 1, e2) {
        Some(v) => v,
        None => { return None; },
    };
    let size = match parse_number(line, e2 + 1, e3) {
        Some(v) => v,
        None => { return None; },
    };
    Some((birth, death, size))
}

/// The job that a line of comma-separated values describes.
pub fn csv_job(birth: ByteSteps, death: ByteSteps, size: ByteSteps, id: u32) -> (job: Job)
    ensures
        job.size == size,
        job.birth == birth,
        job.death == death,
        job.req_size == size,
        job.alignment is None,
        job.contents is None,
        job.originals_boxed == 0,
        job.id == id,
{
    Job {
        size,
        birth,
        death,
        req_size: size,
        alignment: None,
        contents: None,
        originals_boxed: 0,
        id,
    }
}

/// By how much the deaths of the jobs of such a file are moved on as the
/// file is read; `None` for a trace, which has to be adapted first.
pub fn lifetime_shift(format: InpuType) -> (shift: Option<ByteSteps>)
    ensures
        shift == match format {
            InpuType::ExCSV => Some(1usize),
            InpuType::InExCSV => Some(1usize),
            InpuType::InCSV => Some(2usize),
            InpuType::PLC => Some(0usize),
            InpuType::TRC => None,
        },
{
    match format {
        InpuType::ExCSV => Some(1),
        InpuType::InExCSV => Some(1),
        InpuType::InCSV => Some(2),
        InpuType::PLC => Some(0),
        InpuType::TRC => None,
    }
}

/// The job of a buffer that is in use from `start` to `end`, both
/// moments included: it dies two steps after `end`. `None` where that
/// is beyond the machine word.
pub fn slice_job(start: ByteSteps, end: ByteSteps, size: ByteSteps, align: ByteSteps, id: u32) -> (res: Option<
    Job,
>)
    ensures
        res is Some <==> end + 2 <= usize::MAX,
        res matches Some(j) ==> {
            &&& j.size == size
            &&& j.birth == start
            &&& j.death == end + 2
            &&& j.req_size == size
            &&& j.alignment == Some(align)
            &&& j.contents is None
            &&& j.originals_boxed == 0
            &&& j.id == id
        },
{
    let death = match end.checked_add(2) {
        Some(d) => d,
        None => { return None; },
    };
    Some(
        Job {
            size,
            birth: start,
            death,
            req_size: size,
            alignment: Some(align),
            contents: None,
            originals_boxed: 0,
            id,
        },
    )
}

/// How many generations have ended once `k` events are past: a
/// generation ends with the first death after a birth.
pub open spec fn generations(evts: Seq<Event>, k: int) -> nat
    decreases k,
{
    if k <= 0 {
        0
    } else {
        generations(evts, k - 1) + if evts[k - 1].evt_t == EventKind::Death && (k == 1 || evts[k
            - 2].evt_t == EventKind::Birth) {
            1nat
        } else {
            0nat
        }
    }
}

/// The job moved on by the generations that ended before its birth,
/// and its death by `shift` more.
pub open spec fn moved_on(j: Job, gone: nat, shift: ByteSteps, res: Job) -> bool {
    &&& res.size == j.size
    &&& res.req_size == j.size
    &&& res.birth == j.birth + gone
    &&& res.death == j.death + gone + shift
    &&& res.alignment is None
    &&& res.contents is None
    &&& res.originals_boxed == 0
    &&& res.id == j.id
}

/// One of the jobs of `out` is `j` moved on.
pub open spec fn came_out(j: Job, gone: nat, shift: ByteSteps, out: Seq<Job>) -> bool {
    exists|q: int| 0 <= q < out.len() && moved_on(j, gone, shift, #[trigger] out[q])
}

/// What comes of shifting `jobs` along the traversal `evts`: nothing
/// where the death of a job would move beyond the machine word, and else
/// as many jobs as went in, one moved on for each.
pub open spec fn shifted(jobs: Seq<Arc<Job>>, evts: Seq<Event>, shift: ByteSteps, res: Option<Vec<Job>>) -> bool {
    &&& res is Some <==> forall|i: int|
        0 <= i < jobs.len() ==> (#[trigger] jobs[i]).death + generations(evts, birth_pos(evts, i)) + shift
            <= usize::MAX
    &&& res matches Some(v) ==> v.len() == jobs.len() && forall|i: int|
        0 <= i < jobs.len() ==> came_out(*#[trigger] jobs[i], generations(evts, birth_pos(evts, i)), shift, v@)
}

/// Where every job that went in is the owner of one that came out, moved
/// on, the jobs that came out are what shifting gives.
proof fn lemma_all_moved(jobs: Seq<Arc<Job>>, evts: Seq<Event>, shift: ByteSteps, res: Vec<Job>, owner: Seq<int>)
    requires
        owner.len() == res.len(),
        owner.no_duplicates(),
        indices_below(owner, jobs.len() as int),
        forall|v: int| 0 <= v < jobs.len() ==> owner.contains(v),
        forall|q: int|
            0 <= q < owner.len() ==> moved_on(
                *jobs[#[trigger] owner[q]],
                generations(evts, birth_pos(evts, owner[q])),
                shift,
                res[q],
            ),
    ensures
        shifted(jobs, evts, shift, Some(res)),
{
    lemma_full_cover_len(owner, jobs.len() as int);
    let v = res;
    assert forall|i: int| 0 <= i < jobs.len() implies (#[trigger] jobs[i]).death + generations(
        evts,
        birth_pos(evts, i),
    ) + shift <= usize::MAX by {
        assert(owner.contains(i));
        let q = choose|q: int| 0 <= q < owner.len() && owner[q] == i;
        assert(moved_on(*jobs[owner[q]], generations(evts, birth_pos(evts, owner[q])), shift, res[q]));
    }
    assert forall|i: int| 0 <= i < jobs.len() implies came_out(
        *#[trigger] jobs[i],
        generations(evts, birth_pos(evts, i)),
        shift,
        v@,
    ) by {
        assert(owner.contains(i));
        let q = choose|q: int| 0 <= q < owner.len() && owner[q] == i;
        assert(moved_on(*jobs[owner[q]], generations(evts, birth_pos(evts, owner[q])), shift, v@[q]));
    }
}

/// Turns jobs whose lifetimes hold their endpoints into jobs whose
/// lifetimes do not. Sweeps the events; every job moves on by as many
/// steps as generations have ended before its birth, and its death by
/// `shift` more. The jobs come back in the order of their deaths.
/// `None` where a moment would move beyond the machine word.
pub fn shift_generations(dirty_jobs: &JobSet, shift: ByteSteps) -> (res: Option<Vec<Job>>)
    requires
        proper_lifetimes(dirty_jobs@),
    ensures
        exists|evts: Seq<Event>| #[trigger]
            is_traversal(dirty_jobs@, evts) && shifted(dirty_jobs@, evts, shift, res),
{
    let n = dirty_jobs.len();
    let evts = get_events(dirty_jobs);
    // Increased by 1 at every first death after a birth.
    let mut num_generations: usize = 0;
    let mut last_evt_was_birth = true;
    let mut res: Vec<Job> = Vec::new();
    // For each job, by how much it moves on.
    let mut moved: Vec<usize> = Vec::new();
    let mut i: usize = 0;
    while i < n
        invariant
            i <= n,
            moved.len() == i,
        decreases n - i,
    {
        moved.push(0);
        i += 1;
    }
    // For each job that came out, which one of those that went in it is.
    let ghost mut owner: Seq<int> = Seq::empty();
    let mut k: usize = 0;
    while k < evts.len()
        invariant
            k <= evts.len(),
            n == dirty_jobs.len(),
            evts.len() == 2 * n,
            is_traversal(dirty_jobs@, evts@),
            proper_lifetimes(dirty_jobs@),
            moved.len() == n,
            num_generations == generations(evts@, k as int),
            num_generations <= k,
            last_evt_was_birth == (k == 0 || evts[k - 1].evt_t == EventKind::Birth),
            forall|i: int|
                0 <= i < n && birth_pos(evts@, i) < k ==> #[trigger] moved[i] == generations(
                    evts@,
                    birth_pos(evts@, i),
                ),
            owner.len() == res.len(),
            owner.no_duplicates(),
            indices_below(owner, n as int),
            forall|q: int|
                0 <= q < owner.len() ==> death_pos(evts@, #[trigger] owner[q]) < k && moved_on(
                    *dirty_jobs[owner[q]],
                    generations(evts@, birth_pos(evts@, owner[q])),
                    shift,
                    res[q],
                ),
            forall|i: int| 0 <= i < n && death_pos(evts@, i) < k ==> #[trigger] owner.contains(i),
        decreases evts.len() - k,
    {
        let index = evts[k].index;
        proof {
            assert(evts[k as int].wf(dirty_jobs@));
            lemma_positions_unique(dirty_jobs@, evts@, k as int, index as int);
            lemma_birth_before_death(dirty_jobs@, evts@, index as int);
            assert forall|i: int| 0 <= i < n implies (birth_pos(evts@, i) == k <==> (i == index
                && evts[k as int].evt_t == EventKind::Birth)) && (death_pos(evts@, i) == k <==> (i
                == index && evts[k as int].evt_t == EventKind::Death)) by {
                lemma_positions_unique(dirty_jobs@, evts@, k as int, i);
            }
        }
        match evts[k].evt_t {
            EventKind::Birth => {
                last_evt_was_birth = true;
                moved.set(index, num_generations);
            },
            EventKind::Death => {
                if last_evt_was_birth {
                    num_generations += 1;
                    last_evt_was_birth = false;
                }
                let j = &dirty_jobs[index];
                let gone = moved[index];
                let death = match j.death.checked_add(gone) {
                    Some(v) => match v.checked_add(shift) {
                        Some(w) => w,
                        None => {
                            proof {
                                assert(dirty_jobs[index as int].death + generations(
                                    evts@,
                                    birth_pos(evts@, index as int),
                                ) + shift > usize::MAX);
                            }
                            return None;
                        },
                    },
                    None => {
                        proof {
                            assert(dirty_jobs[index as int].death + generations(
                                evts@,
                                birth_pos(evts@, index as int),
                            ) + shift > usize::MAX);
                        }
                        return None;
                    },
                };
                let birth = j.birth + gone;
                proof {
                    let before = owner;
                    owner = owner.push(index as int);
                    assert(!before.contains(index as int)) by {
                        if before.contains(index as int) {
                            let q = choose|q: int| 0 <= q < before.len() && before[q] == index;
                            assert(death_pos(evts@, before[q]) < k);
                        }
                    }
                    assert forall|i: int| 0 <= i < n && death_pos(evts@, i) < k + 1 implies #[trigger] owner.contains(
                        i,
                    ) by {
                        if i == index {
                            assert(owner[before.len() as int] == i);
                        } else {
                            assert(before.contains(i));
                            let q = choose|q: int| 0 <= q < before.len() && before[q] == i;
                            assert(owner[q] == i);
                        }
                    }
                }
                res.push(
                    Job {
                        size: j.size,
                        birth,
                        death,
                        req_size: j.size,
                        alignment: None,
                        contents: None,
                        originals_boxed: 0,
                        id: j.id,
                    },
                );
            },
        }
        k += 1;
    }
    proof {
        assert forall|v: int| 0 <= v < n implies owner.contains(v) by {
            assert(death_at(evts@, death_pos(evts@, v), v));
        }
        lemma_all_moved(dirty_jobs@, evts@, shift, res, owner);
    }
    Some(res)
}

} // verus!
