use std::collections::VecDeque;
use vstd::prelude::*;

use crate::error::HostError;

verus! {

/// Where the cooperative loop stands.
#[derive(Debug, Clone, Copy, PartialEq, Eq)]
pub enum LoopState {
    Idle,
    Draining,
    AwaitingMacrotask,
    Terminated,
}

/// What the caller must do next on the loop's behalf.
#[derive(Debug, Clone, Copy, PartialEq, Eq)]
pub enum LoopAction {
    /// Run this microtask now.
    RunMicrotask(u64),
    /// Run this macrotask now, to completion.
    RunMacrotask(u64),
    /// Nothing is ready: suspend until an outstanding macrotask completes.
    WaitForEvent,
    /// The run is over; its result is in `completion`.
    Finished,
}

/// The run's task queues and the entry module's completion handle.
///
/// Microtasks and ready macrotasks are kept in FIFO order of enqueueing;
/// `outstanding` counts macrotasks still waiting on an outside event
/// (a timer, an I/O completion, a dynamic import).
pub struct EventLoop {
    pub microtasks: VecDeque<u64>,
    pub macrotasks: VecDeque<u64>,
    pub outstanding: u64,
    pub completion: Option<Result<String, HostError>>,
    pub state: LoopState,
}

impl EventLoop {
    /// Whether the entry's handle has settled with an error, which ends the run.
    pub open spec fn failed(&self) -> bool {
        self.completion matches Some(Err(_))
    }

    /// A fresh loop: empty queues, nothing outstanding, entry not settled.
    pub fn new() -> (r: EventLoop)
        ensures
            r.microtasks@ == Seq::<u64>::empty(),
            r.macrotasks@ == Seq::<u64>::empty(),
            r.outstanding == 0,
            r.completion is None,
            r.state == LoopState::Idle,
    {
        EventLoop {
            microtasks: VecDeque::new(),
            macrotasks: VecDeque::new(),
            outstanding: 0,
            completion: None,
            state: LoopState::Idle,
        }
    }

    /// Queues a microtask behind those already queued.
    pub fn enqueue_microtask(&mut self, task: u64)
        ensures
            final(self).microtasks@ == old(self).microtasks@.push(task),
            final(self).macrotasks@ == old(self).macrotasks@,
            final(self).outstanding == old(self).outstanding,
            final(self).completion == old(self).completion,
            final(self).state == old(self).state,
    {
        self.microtasks.push_back(task);
    }

    /// Queues a macrotask that is ready to run, behind those already ready.
    pub fn enqueue_macrotask(&mut self, task: u64)
        ensures
            final(self).macrotasks@ == old(self).macrotasks@.push(task),
            final(self).microtasks@ == old(self).microtasks@,
            final(self).outstanding == old(self).outstanding,
            final(self).completion == old(self).completion,
            final(self).state == old(self).state,
    {
        self.macrotasks.push_back(task);
    }

    /// Notes a macrotask that will become ready on an outside event.
    pub fn schedule_external(&mut self)
        requires
            old(self).outstanding < u64::MAX,
        ensures
            final(self).outstanding == old(self).outstanding + 1,
            final(self).microtasks@ == old(self).microtasks@,
            final(self).macrotasks@ == old(self).macrotasks@,
            final(self).completion == old(self).completion,
            final(self).state == old(self).state,
    {
        self.outstanding = self.outstanding + 1;
    }

    /// An outstanding macrotask's outside event arrived: it becomes ready.
    pub fn external_ready(&mut self, task: u64)
        requires
            old(self).outstanding > 0,
        ensures
            final(self).outstanding == old(self).outstanding - 1,
            final(self).macrotasks@ == old(self).macrotasks@.push(task),
            final(self).microtasks@ == old(self).microtasks@,
            final(self).completion == old(self).completion,
            final(self).state == old(self).state,
    {
        self.outstanding = self.outstanding - 1;
        self.macrotasks.push_back(task);
    }

    /// Settles the entry module's completion handle; a handle settles once,
    /// so a second settlement is ignored.
    pub fn settle(&mut self, result: Result<String, HostError>)
        ensures
            final(self).completion == (if old(self).completion is None {
                Some(result)
            } else {
                old(self).completion
            }),
            final(self).microtasks@ == old(self).microtasks@,
            final(self).macrotasks@ == old(self).macrotasks@,
            final(self).outstanding == old(self).outstanding,
            final(self).state == old(self).state,
    {
        if self.completion.is_none() {
            self.completion = Some(result);
        }
    }

    /// A rejection that no handler took: the run's result becomes an
    /// `EvaluationError` for it, unless the run had already failed.
    pub fn reject_unhandled(&mut self, specifier: String, cause: String)
        ensures
            final(self).completion == (if old(self).completion matches Some(Err(_)) {
                old(self).completion
            } else {
                Some(Err::<String, HostError>(HostError::EvaluationError { specifier, cause }))
            }),
            final(self).microtasks@ == old(self).microtasks@,
            final(self).macrotasks@ == old(self).macrotasks@,
            final(self).outstanding == old(self).outstanding,
            final(self).state == old(self).state,
    {
        let failed = match &self.completion {
            Some(Err(_)) => true,
            _ => false,
        };
        if !failed {
            self.completion = Some(Err(HostError::EvaluationError { specifier, cause }));
        }
    }

    /// Aborts the whole run: the queues are dropped and an unsettled handle
    /// fails with `Cancelled`.
    pub fn cancel(&mut self)
        ensures
            final(self).microtasks@ == Seq::<u64>::empty(),
            final(self).macrotasks@ == Seq::<u64>::empty(),
            final(self).outstanding == 0,
            final(self).state == LoopState::Terminated,
            final(self).completion == (if old(self).completion is None {
                Some(Err(HostError::Cancelled))
            } else {
                old(self).completion
            }),
    {
        self.microtasks = VecDeque::new();
        self.macrotasks = VecDeque::new();
        self.outstanding = 0;
        self.state = LoopState::Terminated;
        if self.completion.is_none() {
            self.completion = Some(Err(HostError::Cancelled));
        }
    }

    /// One turn of the loop.  A handle settled with an error ends the run at
    /// once.  Otherwise a queued microtask always goes first; the run ends
    /// once the handle has settled and no work is queued or outstanding;
    /// otherwise one ready macrotask runs; otherwise the loop waits for an
    /// outstanding one; and with nothing at all left before settlement the
    /// run fails as stalled.
    pub fn step(&mut self) -> (action: LoopAction)
        ensures
            old(self).state == LoopState::Terminated ==> action == LoopAction::Finished
                && *final(self) == *old(self),
            old(self).state != LoopState::Terminated && old(self).failed() ==> {
                &&& action == LoopAction::Finished
                &&& final(self).completion == old(self).completion
                &&& final(self).state == LoopState::Terminated
                &&& final(self).microtasks@ == old(self).microtasks@
                &&& final(self).macrotasks@ == old(self).macrotasks@
                &&& final(self).outstanding == old(self).outstanding
            },
            old(self).state != LoopState::Terminated && !old(self).failed() && old(self).microtasks@.len() > 0 ==> {
                &&& action == LoopAction::RunMicrotask(old(self).microtasks@[0])
                &&& final(self).microtasks@ == old(self).microtasks@.drop_first()
                &&& final(self).macrotasks@ == old(self).macrotasks@
                &&& final(self).completion == old(self).completion
                &&& final(self).outstanding == old(self).outstanding
                &&& final(self).state == LoopState::Draining
            },
            old(self).state != LoopState::Terminated && !old(self).failed() && old(self).microtasks@.len() == 0
                && old(self).completion is Some && old(self).macrotasks@.len() == 0
                && old(self).outstanding == 0 ==> {
                &&& action == LoopAction::Finished
                &&& final(self).completion == old(self).completion
                &&& final(self).state == LoopState::Terminated
                &&& final(self).microtasks@ == old(self).microtasks@
                &&& final(self).macrotasks@ == old(self).macrotasks@
                &&& final(self).outstanding == 0
            },
            old(self).state != LoopState::Terminated && !old(self).failed() && old(self).microtasks@.len() == 0
                && old(self).macrotasks@.len() > 0 ==> {
                &&& action == LoopAction::RunMacrotask(old(self).macrotasks@[0])
                &&& final(self).macrotasks@ == old(self).macrotasks@.drop_first()
                &&& final(self).microtasks@ == old(self).microtasks@
                &&& final(self).completion == old(self).completion
                &&& final(self).outstanding == old(self).outstanding
                &&& final(self).state == LoopState::Idle
            },
            old(self).state != LoopState::Terminated && !old(self).failed() && old(self).microtasks@.len() == 0
                && old(self).macrotasks@.len() == 0 && old(self).outstanding > 0 ==> {
                &&& action == LoopAction::WaitForEvent
                &&& final(self).microtasks@ == old(self).microtasks@
                &&& final(self).macrotasks@ == old(self).macrotasks@
                &&& final(self).completion == old(self).completion
                &&& final(self).outstanding == old(self).outstanding
                &&& final(self).state == LoopState::AwaitingMacrotask
            },
            old(self).state != LoopState::Terminated && !old(self).failed() && old(self).microtasks@.len() == 0
                && old(self).macrotasks@.len() == 0 && old(self).outstanding == 0
                && old(self).completion is None ==> {
                &&& action == LoopAction::Finished
                &&& final(self).completion == Some(Err::<String, HostError>(HostError::EventLoopStalled))
                &&& final(self).state == LoopState::Terminated
                &&& final(self).microtasks@ == old(self).microtasks@
                &&& final(self).macrotasks@ == old(self).macrotasks@
                &&& final(self).outstanding == 0
            },
    {
        if let LoopState::Terminated = self.state {
            return LoopAction::Finished;
        }
        if let Some(Err(_)) = &self.completion {
            self.state = LoopState::Terminated;
            return LoopAction::Finished;
        }
        if let Some(task) = self.microtasks.pop_front() {
            self.state = LoopState::Draining;
            return LoopAction::RunMicrotask(task);
        }
        if self.completion.is_some() && self.macrotasks.len() == 0 && self.outstanding == 0 {
            self.state = LoopState::Terminated;
            return LoopAction::Finished;
        }
        if let Some(task) = self.macrotasks.pop_front() {
            self.state = LoopState::Idle;
            return LoopAction::RunMacrotask(task);
        }
        if self.outstanding > 0 {
            self.state = LoopState::AwaitingMacrotask;
            return LoopAction::WaitForEvent;
        }
        self.completion = Some(Err(HostError::EventLoopStalled));
        self.state = LoopState::Terminated;
        LoopAction::Finished
    }
}

} // verus!
