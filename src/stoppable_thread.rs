//! The start and stop handshake of a worker thread that runs a loop until told to stop.
use vstd::prelude::*;

verus! {

/// The state of a worker thread that may be started once and stopped once.
/// Its owner spawns the thread when `start` says so, and joins it when
/// `stop` says so.
pub struct StoppableThread {
    started: bool,
    running: bool,
    name: &'static str,
}

impl StoppableThread {
    pub closed spec fn is_started(&self) -> bool {
        self.started
    }

    pub closed spec fn is_running(&self) -> bool {
        self.running
    }

    pub closed spec fn spec_name(&self) -> &'static str {
        self.name
    }

    /// A thread named `name`, neither started nor running.
    pub fn new(name: &'static str) -> (r: Self)
        ensures
            !r.is_started(),
            !r.is_running(),
            r.spec_name() == name,
    {
        StoppableThread { started: false, running: false, name }
    }

    /// Marks the thread started and running; true only for the call that
    /// did so, the one that must spawn it.
    pub fn start(&mut self) -> (r: bool)
        ensures
            r == !old(self).is_started(),
            final(self).is_started(),
            final(self).is_running() == (r || old(self).is_running()),
            final(self).spec_name() == old(self).spec_name(),
    {
        if self.started {
            false
        } else {
            self.started = true;
            self.running = true;
            true
        }
    }

    /// Marks the thread stopped; true only for the call that did so, the
    /// one that must join it.
    pub fn stop(&mut self) -> (r: bool)
        ensures
            r == old(self).is_running(),
            !final(self).is_running(),
            final(self).is_started() == old(self).is_started(),
            final(self).spec_name() == old(self).spec_name(),
    {
        if self.running {
            self.running = false;
            true
        } else {
            false
        }
    }

    /// Whether the loop should go on.
    pub fn running(&self) -> (r: bool)
        ensures
            r == self.is_running(),
    {
        self.running
    }

    /// The thread's name.
    pub fn name(&self) -> (r: &'static str)
        ensures
            r == self.spec_name(),
    {
        self.name
    }
}

} // verus!
