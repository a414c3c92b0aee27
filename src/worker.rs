//! The decisions of the worker pool: which worker takes the next packet,
//! and when the pool stops taking any.
use vstd::prelude::*;

verus! {

/// Why a packet was not handed to a worker.
#[derive(Debug, Clone, Copy, PartialEq, Eq, Structural)]
pub enum SubmitError {
    ShuttingDown,
    MailboxFull,
}

/// Round-robin choice of worker, and the shutdown flag.
#[derive(Debug, Clone, Copy, PartialEq, Eq, Structural)]
pub struct WorkerSelector {
    pub next: usize,
    pub count: usize,
    pub shutting_down: bool,
}

impl WorkerSelector {
    pub open spec fn wf(&self) -> bool {
        self.count > 0 && self.next < self.count
    }

    /// A selector over `count` workers (at least one).
    pub fn new(count: usize) -> (r: Self)
        ensures
            r.wf(),
            r.next == 0,
            r.count == if count == 0 {
                1
            } else {
                count
            },
            !r.shutting_down,
    {
        WorkerSelector { next: 0, count: if count == 0 { 1 } else { count }, shutting_down: false }
    }

    /// The worker that takes the next packet, in turn; none once the pool
    /// is shutting down.
    pub fn select(&mut self) -> (r: Result<usize, SubmitError>)
        requires
            old(self).wf(),
        ensures
            final(self).wf(),
            final(self).count == old(self).count,
            final(self).shutting_down == old(self).shutting_down,
            old(self).shutting_down ==> r == Err::<usize, SubmitError>(SubmitError::ShuttingDown)
                && final(self).next == old(self).next,
            !old(self).shutting_down ==> r == Ok::<usize, SubmitError>(old(self).next) && final(self).next == (
            old(self).next + 1) % (old(self).count as int),
    {
        if self.shutting_down {
            return Err(SubmitError::ShuttingDown);
        }
        let chosen = self.next;
        let count = self.count;
        proof {
            if chosen + 1 == count {
                vstd::arithmetic::div_mod::lemma_mod_self_0(count as int);
            } else {
                vstd::arithmetic::div_mod::lemma_small_mod((chosen + 1) as nat, count as nat);
            }
        }
        self.next = if self.next + 1 == self.count {
            0
        } else {
            self.next + 1
        };
        Ok(chosen)
    }

    /// Starts the shutdown; true the first time only.
    pub fn shutdown(&mut self) -> (r: bool)
        ensures
            final(self).shutting_down,
            r == !old(self).shutting_down,
            final(self).next == old(self).next,
            final(self).count == old(self).count,
    {
        if self.shutting_down {
            return false;
        }
        self.shutting_down = true;
        true
    }
}

} // verus!
