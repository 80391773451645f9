use crate::model::{load_at, max_death, min_birth, originals_in};
use std::sync::Arc;
use vstd::prelude::*;

verus! {

/// The unit of both axes: logical time and address space.
pub type ByteSteps = usize;

/// A group of jobs.
pub type JobSet = Vec<Arc<Job>>;

/// The identifier kept for the dummy job, which no box may get.
pub const DUMMY_ID: u32 = 2147483648;

/// `Arc::clone`: hands out a second pointer to the same allocation, so the
/// job behind the result is the job behind the argument.
#[verifier::external_body]
pub(crate) fn share(job: &Arc<Job>) -> (res: Arc<Job>)
    ensures
        res == *job,
{
    job.clone()
}

/// A complete description of one need for memory: `size` bytes are held
/// from `birth` to `death`. Memory is not live at either end: a job born
/// when another one dies may take its place.
#[derive(Debug)]
pub struct Job {
    /// The allocated size.
    pub size: ByteSteps,
    pub birth: ByteSteps,
    pub death: ByteSteps,
    /// The size that was asked for.
    pub req_size: ByteSteps,
    pub alignment: Option<ByteSteps>,
    /// The jobs that a box holds; `None` for a job of the input.
    pub contents: Option<JobSet>,
    /// How many jobs of the input the box holds, at any depth.
    pub originals_boxed: u32,
    pub id: u32,
}

/// Hands out the identifiers of boxes, from the top of the range downward.
pub struct BoxIds {
    next: u32,
}

impl BoxIds {
    /// How many identifiers can still be handed out.
    pub closed spec fn left(&self) -> nat {
        (self.next - DUMMY_ID) as nat
    }

    /// The identifier that comes next.
    pub closed spec fn upcoming(&self) -> u32 {
        self.next
    }

    #[verifier::type_invariant]
    spec fn above_dummy(&self) -> bool {
        self.next >= DUMMY_ID
    }

    /// All the identifiers of boxes, none of them handed out.
    pub fn new() -> (ids: Self)
        ensures
            ids.left() == u32::MAX - DUMMY_ID,
            ids.upcoming() == u32::MAX,
    {
        BoxIds { next: u32::MAX }
    }

    /// Says whether `n` more identifiers can be handed out.
    pub fn has(&self, n: usize) -> (enough: bool)
        ensures
            enough == (n <= self.left()),
    {
        proof {
            use_type_invariant(self);
        }
        n <= (self.next - DUMMY_ID) as usize
    }

    /// The next identifier. It is above the one of the dummy job, and
    /// below every one handed out before.
    pub fn take(&mut self) -> (id: u32)
        requires
            old(self).left() > 0,
        ensures
            id == old(self).upcoming(),
            id > DUMMY_ID,
            final(self).upcoming() == id - 1,
            final(self).left() == old(self).left() - 1,
    {
        proof {
            use_type_invariant(&*self);
        }
        let id = self.next;
        self.next = id - 1;
        id
    }
}

impl Job {
    /// Live at moment `t`: strictly between birth and death.
    pub open spec fn live_at(&self, t: int) -> bool {
        self.birth < t && t < self.death
    }

    /// The fields that a box made of `contents` must have.
    pub open spec fn is_box_of(&self, contents: Seq<Arc<Job>>, height: ByteSteps, id: u32) -> bool {
        &&& self.size == height
        &&& self.req_size == height
        &&& self.alignment is None
        &&& self.contents matches Some(c) && c@ == contents
        &&& self.birth == min_birth(contents)
        &&& self.death == max_death(contents)
        &&& self.originals_boxed == if originals_in(contents) <= u32::MAX {
            originals_in(contents) as u32
        } else {
            u32::MAX
        }
        &&& self.id == id
    }

    /// The identifier of the job.
    pub fn get_id(&self) -> (id: u32)
        ensures
            id == self.id,
    {
        self.id
    }

    /// The size that was asked for.
    pub fn get_req_size(&self) -> (req: ByteSteps)
        ensures
            req == self.req_size,
    {
        self.req_size
    }

    /// The alignment that was asked for, if any.
    pub fn get_alignment(&self) -> (alignment: Option<ByteSteps>)
        ensures
            alignment == self.alignment,
    {
        self.alignment
    }

    /// A blank job, to be filled in by its maker.
    pub fn new() -> (job: Self)
        ensures
            job.size == 0,
            job.birth == 0,
            job.death == 0,
            job.req_size == 0,
            job.alignment is None,
            job.contents is None,
            job.originals_boxed == 0,
            job.id == 0,
    {
        Job {
            birth: 0,
            death: 0,
            size: 0,
            req_size: 0,
            alignment: None,
            contents: None,
            originals_boxed: 0,
            id: 0,
        }
    }

    /// A box of the given height around `contents`. It lives from the
    /// earliest birth to the latest death among them, and counts the jobs
    /// of the input that they hold, up to what the counter can hold. Its
    /// identifier is the next from the top, above the one kept for the
    /// dummy job.
    pub fn new_box(contents: JobSet, height: ByteSteps, ids: &mut BoxIds) -> (boxed: Self)
        requires
            old(ids).left() > 0,
            forall|t: int| #[trigger] load_at(contents@, t) <= height,
        ensures
            boxed.is_box_of(contents@, height, old(ids).upcoming()),
            boxed.id > DUMMY_ID,
            final(ids).left() == old(ids).left() - 1,
            final(ids).upcoming() == old(ids).upcoming() - 1,
    {
        let mut birth: usize = usize::MAX;
        let mut death: usize = 0;
        let mut originals_boxed: u32 = 0;
        let mut i: usize = 0;
        while i < contents.len()
            invariant
                i <= contents.len(),
                birth == min_birth(contents@.take(i as int)),
                death == max_death(contents@.take(i as int)),
                originals_boxed == if originals_in(contents@.take(i as int)) <= u32::MAX {
                    originals_in(contents@.take(i as int)) as u32
                } else {
                    u32::MAX
                },
            decreases contents.len() - i,
        {
            proof {
                assert(contents@.take(i + 1).drop_last() =~= contents@.take(i as int));
            }
            let j = &contents[i];
            if j.birth < birth {
                birth = j.birth;
            }
            if j.death > death {
                death = j.death;
            }
            let held = if j.is_original() {
                1
            } else {
                j.originals_boxed
            };
            originals_boxed = originals_boxed.saturating_add(held);
            i += 1;
        }
        proof {
            assert(contents@.take(contents.len() as int) =~= contents@);
        }
        let id = ids.take();
        Job {
            size: height,
            birth,
            death,
            req_size: height,
            alignment: None,
            contents: Some(contents),
            originals_boxed,
            id,
        }
    }

    /// Says whether the job is live at moment `t`.
    pub fn is_live_at(&self, t: usize) -> (r: bool)
        ensures
            r == self.live_at(t as int),
    {
        self.birth < t && self.death > t
    }

    /// Says whether the job's lifetime lies within `space`.
    pub fn lives_within(&self, space: &(ByteSteps, ByteSteps)) -> (r: bool)
        ensures
            r == (self.birth >= space.0 && self.death <= space.1),
    {
        self.birth >= space.0 && self.death <= space.1
    }

    /// Says whether the job came with the input, rather than being a box.
    pub fn is_original(&self) -> (r: bool)
        ensures
            r == (self.contents is None),
    {
        if let Some(_) = self.contents {
            false
        } else {
            true
        }
    }

    /// Says whether the job is dead by moment `t`.
    pub fn dies_before(&self, t: ByteSteps) -> (r: bool)
        ensures
            r == (self.death <= t),
    {
        self.death <= t
    }

    /// Says whether the job is born no sooner than moment `t`.
    pub fn born_after(&self, t: ByteSteps) -> (r: bool)
        ensures
            r == (self.birth >= t),
    {
        self.birth >= t
    }

    /// The number of moments at which the job is live.
    pub fn lifetime(&self) -> (l: ByteSteps)
        requires
            self.birth < self.death,
        ensures
            l == self.death - self.birth - 1,
    {
        self.death - self.birth - 1
    }

    /// Size times lifetime.
    pub fn area(&self) -> (a: ByteSteps)
        requires
            self.birth < self.death,
            self.size * (self.death - self.birth - 1) <= usize::MAX,
        ensures
            a == self.size * (self.death - self.birth - 1),
    {
        self.size * self.lifetime()
    }
}

} // verus!
