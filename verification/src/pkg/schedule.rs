//! What a scheduler does with its tasks. The timers are those of its caller.

use vstd::prelude::*;

verus! {

/// A scheduler: once it is stopped, no task is started any more.
#[derive(Debug)]
pub struct SimpleScheduler {
    stopped: bool,
}

/// What a task waits for.
#[derive(Clone, Copy, Debug, PartialEq, Eq, Structural)]
pub enum TimerEvent {
    /// Its delay is over.
    Elapsed,
    /// The scheduler was stopped.
    Stopped,
}

/// A scheduler of tasks that are put off.
pub trait Scheduler {
    /// No task is started any more.
    spec fn is_stopped(&self) -> bool;

    /// Whether a task that is handed in now gets a timer.
    fn schedule(&self) -> (r: bool)
        ensures
            r == !self.is_stopped(),
    ;

    /// Stops the scheduler. Its timers are told so.
    fn stop(&mut self)
        ensures
            final(self).is_stopped(),
    ;
}

impl SimpleScheduler {
    /// A scheduler that runs.
    pub fn new() -> (r: SimpleScheduler)
        ensures
            !r.is_stopped(),
    {
        SimpleScheduler { stopped: false }
    }

    /// Whether a task is run at an event.
    pub fn on_event(&self, event: TimerEvent) -> (r: bool)
        ensures
            r == (event == TimerEvent::Elapsed && !self.is_stopped()),
    {
        match event {
            TimerEvent::Elapsed => !self.stopped,
            TimerEvent::Stopped => false,
        }
    }
}

impl Scheduler for SimpleScheduler {
    closed spec fn is_stopped(&self) -> bool {
        self.stopped
    }

    fn schedule(&self) -> (r: bool) {
        !self.stopped
    }

    fn stop(&mut self) {
        self.stopped = true;
    }
}

impl Default for SimpleScheduler {
    fn default() -> (r: SimpleScheduler)
        ensures
            !r.is_stopped(),
    {
        SimpleScheduler::new()
    }
}

} // verus!
