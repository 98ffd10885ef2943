//! Reading a file's notes in the background: the one-slot mailbox a read
//! reports into, the bound on how many reads may be alive at once, and the
//! generation count that keeps a stale answer from landing.

use vstd::prelude::*;

verus! {

/// How many reads may be alive at once.
pub const MAX_IN_FLIGHT: usize = 4;

/// Why a read is refused while too many are alive.
pub const TOO_MANY_READS: &'static str = "too many files are already being read";

/// How a read is going, for the page to poll. `T` is what a finished read
/// found.
pub enum ReadStatus<T> {
    /// Nothing has been read since the page last looked.
    Idle,
    /// A file is being read; the path is the page's own spelling of it.
    Running { path: String },
    /// Read, and what was found.
    Done { path: String, split: T },
    /// It could not be read, and why.
    Failed { path: String, reason: String },
}

/// The reads of one plugin instance.
pub struct Jobs<T> {
    slot: ReadStatus<T>,
    /// Moved on by every start and every cancel, so a worker can tell whether
    /// its answer is still wanted.
    generation: u64,
    /// How many workers are alive.
    running: usize,
}

impl<T> Jobs<T> {
    /// What the slot holds.
    pub closed spec fn slot(&self) -> ReadStatus<T> {
        self.slot
    }

    /// The generation the last start or cancel moved to.
    pub closed spec fn generation(&self) -> u64 {
        self.generation
    }

    /// How many workers are alive.
    pub closed spec fn alive(&self) -> nat {
        self.running as nat
    }

    /// No read yet.
    pub fn new() -> (r: Jobs<T>)
        ensures
            r.slot() is Idle,
            r.alive() == 0,
    {
        Jobs { slot: ReadStatus::Idle, generation: 0, running: 0 }
    }

    /// Starts a read of the file the page calls `shown`. Refused while
    /// [`MAX_IN_FLIGHT`] workers are alive; otherwise a new worker is counted,
    /// the generation moves on (so any read still in flight is now stale) and
    /// the slot says this file is being read. The answer is the generation the
    /// worker must hand back with its outcome.
    pub fn start(&mut self, shown: String) -> (r: Result<u64, String>)
        ensures
            old(self).alive() >= MAX_IN_FLIGHT ==> ({
                &&& r is Err
                &&& r->Err_0@ == TOO_MANY_READS@
                &&& final(self).slot() == old(self).slot()
                &&& final(self).alive() == old(self).alive()
                &&& final(self).generation() == old(self).generation()
            }),
            old(self).alive() < MAX_IN_FLIGHT ==> ({
                &&& r is Ok
                &&& r->Ok_0 == final(self).generation()
                &&& final(self).generation() != old(self).generation()
                &&& final(self).alive() == old(self).alive() + 1
                &&& final(self).slot() == (ReadStatus::<T>::Running { path: shown })
            }),
    {
        if self.running >= MAX_IN_FLIGHT {
            return Err(TOO_MANY_READS.to_string());
        }
        self.running = self.running + 1;
        self.generation = self.generation.wrapping_add(1);
        self.slot = ReadStatus::Running { path: shown };
        Ok(self.generation)
    }

    /// A worker ends, however it ends: it is no longer counted, and its outcome
    /// lands only if no start or cancel came after the one it was given.
    pub fn finish(&mut self, generation: u64, outcome: ReadStatus<T>)
        ensures
            final(self).alive() == if old(self).alive() > 0 { old(self).alive() - 1 } else { 0 },
            final(self).generation() == old(self).generation(),
            generation == old(self).generation() ==> final(self).slot() == outcome,
            generation != old(self).generation() ==> final(self).slot() == old(self).slot(),
    {
        if self.running > 0 {
            self.running = self.running - 1;
        }
        if generation == self.generation {
            self.slot = outcome;
        }
    }

    /// Stops waiting for the read in flight: its answer, when it comes, is
    /// dropped, and the slot is empty now.
    pub fn cancel(&mut self)
        ensures
            final(self).generation() != old(self).generation(),
            final(self).slot() is Idle,
            final(self).alive() == old(self).alive(),
    {
        self.generation = self.generation.wrapping_add(1);
        self.slot = ReadStatus::Idle;
    }

    /// What the last read did, taken: a finished read is reported once and
    /// then forgotten, while `Running` stays, since the page polls.
    pub fn take(&mut self) -> (r: ReadStatus<T>)
        ensures
            old(self).slot() is Running ==> ({
                &&& r is Running
                &&& r->Running_path@ == old(self).slot()->Running_path@
                &&& final(self).slot() == old(self).slot()
            }),
            !(old(self).slot() is Running) ==> r == old(self).slot() && final(self).slot() is Idle,
            final(self).generation() == old(self).generation(),
            final(self).alive() == old(self).alive(),
    {
        if let ReadStatus::Running { path } = &self.slot {
            let copy = crate::text::copy_string(path);
            assert(copy@ == path@);
            return ReadStatus::Running { path: copy };
        }
        let mut taken = ReadStatus::Idle;
        std::mem::swap(&mut taken, &mut self.slot);
        taken
    }
}

/// A cancelled or replaced read never lands: the generation a start handed
/// its worker is not the generation after a later start or cancel, so the
/// worker's outcome leaves the slot as that later call left it.
pub proof fn a_stale_read_never_lands<T>(started: Jobs<T>, later: Jobs<T>, handed: u64)
    requires
        handed == started.generation(),
        later.generation() != started.generation(),
    ensures
        handed != later.generation(),
{
}

} // verus!
