//! The session lifecycle: at most one worker, replaced only through a
//! completed stop.
//!
//! The controller owns the kill flag and the worker slot. Replacing
//! the worker follows a fixed order: signal kill, join the old worker,
//! clear the flag, install the new one. The state is plain data; the
//! methods are the transitions, and [`life_step`] is the same relation
//! in spec form, over which the restart law is proved.

use vstd::prelude::*;
use vstd::string::StringExecFns;
use crate::messages::KeyDotErrors;

verus! {

/// Where the controller stands with respect to a worker.
#[derive(PartialEq, Eq, Structural, Clone, Copy, Debug)]
pub enum SessionPhase {
    /// No worker is installed.
    NoWorker,
    /// A worker is installed and the kill flag was clear when it
    /// started.
    Running,
    /// Kill was signalled; the worker is being joined.
    Stopping,
}

/// The lifecycle controller's state.
#[derive(PartialEq, Eq, Structural, Clone, Copy, Debug)]
pub struct SessionManager {
    /// Where the controller stands.
    pub phase: SessionPhase,
    /// The shared kill flag; true until a session is started.
    pub kill: bool,
    /// How many sessions have been installed so far; names the
    /// current worker.
    pub generation: u64,
}

/// The lifecycle transitions, named.
pub enum LifeEvent {
    /// Signal kill to a worker that is to be stopped.
    StopBegin,
    /// The old worker's thread was joined (or the join failed).
    StopFinish(bool),
    /// Clear the kill flag before a new worker starts.
    StartClear,
    /// Install the new worker.
    StartInstall,
}

/// When a transition may fire.
pub open spec fn life_enabled(s: SessionManager, e: LifeEvent) -> bool {
    match e {
        LifeEvent::StopBegin => !(s.phase is Stopping),
        LifeEvent::StopFinish(_) => s.phase is Stopping,
        LifeEvent::StartClear => s.phase is NoWorker,
        LifeEvent::StartInstall => s.phase is NoWorker && !s.kill && s.generation < u64::MAX,
    }
}

/// What a transition does.
pub open spec fn life_step(s: SessionManager, e: LifeEvent) -> SessionManager {
    match e {
        LifeEvent::StopBegin => if s.phase is Running {
            SessionManager { phase: SessionPhase::Stopping, kill: true, ..s }
        } else {
            s
        },
        LifeEvent::StopFinish(_) => SessionManager { phase: SessionPhase::NoWorker, ..s },
        LifeEvent::StartClear => SessionManager { kill: false, ..s },
        LifeEvent::StartInstall => SessionManager {
            phase: SessionPhase::Running,
            generation: (s.generation + 1) as u64,
            ..s
        },
    }
}

impl SessionManager {
    /// A fresh controller: no worker, and the kill flag set, so that
    /// nothing is live until a session is started.
    pub fn new() -> (s: SessionManager)
        ensures
            s == (SessionManager {
                phase: SessionPhase::NoWorker,
                kill: true,
                generation: 0,
            }),
    {
        SessionManager { phase: SessionPhase::NoWorker, kill: true, generation: 0 }
    }

    /// First half of `stop`: signal kill to the running worker. Returns
    /// whether a worker was running, and so whether there is a thread
    /// to join. Must not overlap another stop in progress: the caller
    /// serializes stops behind the slot's lock.
    pub fn stop_begin(&mut self) -> (was_running: bool)
        requires
            !(old(self).phase is Stopping),
        ensures
            *final(self) == life_step(*old(self), LifeEvent::StopBegin),
            was_running == (old(self).phase is Running),
            final(self).kill == (old(self).kill || old(self).phase is Running),
    {
        match self.phase {
            SessionPhase::Running => {
                self.kill = true;
                self.phase = SessionPhase::Stopping;
                true
            },
            _ => false,
        }
    }

    /// Second half of `stop`, after the worker's thread was joined.
    /// A failed join empties the slot all the same, but is reported,
    /// never swallowed: the previous worker's fate is unknown.
    pub fn stop_finish(&mut self, join_ok: bool, detail: String) -> (r: Result<
        bool,
        KeyDotErrors,
    >)
        requires
            old(self).phase is Stopping,
        ensures
            *final(self) == life_step(*old(self), LifeEvent::StopFinish(join_ok)),
            join_ok ==> r == Ok::<bool, KeyDotErrors>(true),
            !join_ok ==> (r matches Err(e) && e@ == (crate::messages::ErrorV::CouldNotStopSerialThread {
                error: detail@,
            })),
    {
        self.phase = SessionPhase::NoWorker;
        if join_ok {
            Ok(true)
        } else {
            Err(KeyDotErrors::CouldNotStopSerialThread { error: detail })
        }
    }

    /// A stop that found no worker: nothing to join, nothing changes.
    pub fn stop_none(&self) -> (r: Result<bool, KeyDotErrors>)
        requires
            self.phase is NoWorker,
        ensures
            r == Ok::<bool, KeyDotErrors>(false),
    {
        Ok(false)
    }

    /// Clear the kill flag; only once the previous worker is fully
    /// stopped, so that no two workers ever share the port.
    pub fn start_clear(&mut self)
        requires
            old(self).phase is NoWorker,
        ensures
            *final(self) == life_step(*old(self), LifeEvent::StartClear),
    {
        self.kill = false;
    }

    /// Install the new worker, after the port opened and the thread
    /// spawned. Returns the new worker's generation.
    pub fn start_install(&mut self) -> (gen: u64)
        requires
            old(self).phase is NoWorker,
            !old(self).kill,
            old(self).generation < u64::MAX,
        ensures
            *final(self) == life_step(*old(self), LifeEvent::StartInstall),
            gen == old(self).generation + 1,
    {
        self.generation = self.generation + 1;
        self.phase = SessionPhase::Running;
        self.generation
    }

    /// Whether a worker is installed and live.
    pub fn is_running(&self) -> (b: bool)
        ensures
            b == (self.phase is Running),
    {
        matches!(self.phase, SessionPhase::Running)
    }
}

} // verus!
