//! The handshake by which a reader asks the writer to pause and learns that
//! it has.
//!
//! The coordinator is in one of three states. It starts `Running`. A reader
//! that wants a consistent view asks for a stop, which makes it
//! `StopRequested`; the writer, once it has flushed what it was writing,
//! acknowledges, which makes it `Stopped`; the reader, when done, starts it
//! again.

use vstd::prelude::*;

verus! {

/// The state of the handshake.
#[derive(Clone, Copy, Debug, PartialEq, Eq, Structural)]
pub enum LockState {
    /// The writer may write.
    Running,
    /// A stop was asked for and the writer has not acknowledged it yet.
    StopRequested,
    /// The writer has acknowledged the stop and writes nothing.
    Stopped,
}

/// The two flags behind the handshake.
pub struct LockInner {
    /// Cleared by whoever asks the writer to stop.
    can_write: bool,
    /// Cleared by the writer when it has stopped.
    is_writing: bool,
}

impl LockInner {
    /// Whether the writer is allowed to write.
    pub closed spec fn spec_can_write(&self) -> bool {
        self.can_write
    }

    /// Whether the writer has yet to acknowledge a stop.
    pub closed spec fn spec_is_writing(&self) -> bool {
        self.is_writing
    }

    /// Both flags set: the writer may write and has not stopped.
    pub fn new() -> (inner: Self)
        ensures
            inner.spec_can_write(),
            inner.spec_is_writing(),
    {
        LockInner { can_write: true, is_writing: true }
    }
}

/// The coordinator of the handshake.
pub struct Lock {
    inner: LockInner,
}

impl View for Lock {
    type V = LockState;

    closed spec fn view(&self) -> LockState {
        if self.inner.can_write {
            LockState::Running
        } else if self.inner.is_writing {
            LockState::StopRequested
        } else {
            LockState::Stopped
        }
    }
}

/// The state after a stop was asked for in state `s`.
pub open spec fn after_request(s: LockState) -> LockState {
    match s {
        LockState::Running => LockState::StopRequested,
        LockState::StopRequested => LockState::StopRequested,
        LockState::Stopped => LockState::Stopped,
    }
}

impl Lock {
    /// The writer never counts as stopped while it is allowed to write.
    #[verifier::type_invariant]
    closed spec fn inv(self) -> bool {
        self.inner.can_write ==> self.inner.is_writing
    }

    /// A coordinator in state `Running`.
    pub fn new() -> (lock: Self)
        ensures
            lock@ == LockState::Running,
    {
        Lock { inner: LockInner::new() }
    }

    /// The state of the handshake.
    pub fn state(&self) -> (state: LockState)
        ensures
            state == self@,
    {
        if self.inner.can_write {
            LockState::Running
        } else if self.inner.is_writing {
            LockState::StopRequested
        } else {
            LockState::Stopped
        }
    }

    /// Whether the writer may write: asked by the writer before each cycle.
    pub fn can_write(&self) -> (yes: bool)
        ensures
            yes == (self@ == LockState::Running),
    {
        self.inner.can_write
    }

    /// Asks the writer to stop. A stop that was already asked for, or
    /// already acknowledged, stays as it is.
    pub fn request_to_stop(&mut self)
        ensures
            final(self)@ == after_request(old(self)@),
    {
        proof {
            use_type_invariant(&*self);
        }
        self.inner.can_write = false;
    }

    /// The writer's acknowledgement that it has stopped. Only for a
    /// coordinator that was asked to stop.
    pub fn stop(&mut self)
        requires
            old(self)@ != LockState::Running,
        ensures
            final(self)@ == LockState::Stopped,
    {
        self.inner.is_writing = false;
    }

    /// Whether the writer has acknowledged the stop. Only for a coordinator
    /// that was asked to stop.
    pub fn has_stopped(&self) -> (yes: bool)
        requires
            self@ != LockState::Running,
        ensures
            yes == (self@ == LockState::Stopped),
    {
        !self.inner.is_writing
    }

    /// Lets the writer write again.
    pub fn start(&mut self)
        ensures
            final(self)@ == LockState::Running,
    {
        self.inner.is_writing = true;
        self.inner.can_write = true;
    }
}

} // verus!
