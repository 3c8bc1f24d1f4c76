//! The decisions of the multi-reader, single-writer database lock.
//!
//! The lock itself is an advisory lock on a lock file; the caller performs
//! each step that these functions ask for (opening the file and taking a
//! lock on it, upgrading it, releasing it) and reports how it went.
use vstd::prelude::*;
use crate::error::{Error, ErrorView, Result};
use crate::text::string_of;

verus! {

/// Lock modes
#[derive(Debug, Clone, Copy, PartialEq, Eq, Structural)]
pub enum LockMode {
    /// No lock held
    Unlocked,
    /// Shared lock (read)
    Shared,
    /// Exclusive lock (write)
    Exclusive,
}

/// What the caller has to do next for a lock request
#[derive(Debug, PartialEq)]
pub enum LockStep {
    /// Nothing: the request is already satisfied
    Done,
    /// Nothing: the request is refused with this error
    Fail(Error),
    /// Open the lock file and take a lock of this mode on it
    Acquire(LockMode),
    /// Turn the shared lock on the open lock file into an exclusive one
    Upgrade,
    /// Release the lock on the lock file, if one is open, and close it
    Release,
}

/// The state of a database lock: its mode, and whether a lock file is open
#[derive(Debug, Clone, Copy, PartialEq, Eq, Structural)]
pub struct LockState {
    pub mode: LockMode,
    pub has_file: bool,
}

impl LockState {
    /// No lock, no lock file
    pub fn new() -> (s: Self)
        ensures
            s == (LockState { mode: LockMode::Unlocked, has_file: false }),
    {
        LockState { mode: LockMode::Unlocked, has_file: false }
    }

    /// What acquiring a shared lock takes: refused while any lock is held
    pub fn request_shared(&self) -> (step: LockStep)
        ensures
            self.mode == LockMode::Unlocked ==> step == LockStep::Acquire(LockMode::Shared),
            self.mode != LockMode::Unlocked ==> (step matches LockStep::Fail(e) && e@ == ErrorView::Internal("Lock already held"@)),
    {
        match self.mode {
            LockMode::Unlocked => LockStep::Acquire(LockMode::Shared),
            _ => LockStep::Fail(Error::Internal(string_of("Lock already held"))),
        }
    }

    /// What acquiring an exclusive lock takes: nothing when it is held, an
    /// upgrade from a shared lock, a new lock otherwise
    pub fn request_exclusive(&self) -> (step: LockStep)
        ensures
            self.mode == LockMode::Exclusive ==> step == LockStep::Done,
            self.mode == LockMode::Shared && self.has_file ==> step == LockStep::Upgrade,
            self.mode == LockMode::Shared && !self.has_file ==>
                (step matches LockStep::Fail(e) && e@ == ErrorView::Internal("No lock file to upgrade"@)),
            self.mode == LockMode::Unlocked ==> step == LockStep::Acquire(LockMode::Exclusive),
    {
        match self.mode {
            LockMode::Exclusive => LockStep::Done,
            LockMode::Shared => {
                if self.has_file {
                    LockStep::Upgrade
                } else {
                    LockStep::Fail(Error::Internal(string_of("No lock file to upgrade")))
                }
            },
            LockMode::Unlocked => LockStep::Acquire(LockMode::Exclusive),
        }
    }

    /// What releasing the lock takes
    pub fn request_unlock(&self) -> (step: LockStep)
        ensures
            self.mode == LockMode::Unlocked ==> step == LockStep::Done,
            self.mode != LockMode::Unlocked ==> step == LockStep::Release,
    {
        match self.mode {
            LockMode::Unlocked => LockStep::Done,
            _ => LockStep::Release,
        }
    }

    /// Records how taking a new lock of a mode went: held on success,
    /// refused otherwise
    pub fn acquired(&mut self, mode: LockMode, ok: bool) -> (r: Result<()>)
        requires
            mode != LockMode::Unlocked,
        ensures
            ok ==> r is Ok && *final(self) == (LockState { mode, has_file: true }),
            !ok ==> *final(self) == *old(self) && (r matches Err(e) && e@ == ErrorView::Internal(
                if mode == LockMode::Shared { "Could not acquire shared lock"@ } else { "Could not acquire exclusive lock"@ })),
    {
        if !ok {
            return match mode {
                LockMode::Shared => Err(Error::Internal(string_of("Could not acquire shared lock"))),
                _ => Err(Error::Internal(string_of("Could not acquire exclusive lock"))),
            };
        }
        self.mode = mode;
        self.has_file = true;
        Ok(())
    }

    /// Records how upgrading the shared lock went: exclusive on success; on
    /// failure the shared lock is taken again and the upgrade refused
    pub fn upgraded(&mut self, ok: bool) -> (r: Result<()>)
        ensures
            ok ==> r is Ok && *final(self) == (LockState { mode: LockMode::Exclusive, ..*old(self) }),
            !ok ==> *final(self) == *old(self) && (r matches Err(e) && e@ == ErrorView::Internal("Could not upgrade lock"@)),
    {
        if !ok {
            return Err(Error::Internal(string_of("Could not upgrade lock")));
        }
        self.mode = LockMode::Exclusive;
        Ok(())
    }

    /// Records that the lock was released and its file closed
    pub fn released(&mut self)
        ensures
            *final(self) == (LockState { mode: LockMode::Unlocked, has_file: false }),
    {
        self.mode = LockMode::Unlocked;
        self.has_file = false;
    }

    /// Get current lock mode
    pub fn mode(&self) -> (m: LockMode)
        ensures
            m == self.mode,
    {
        self.mode
    }

    /// Check if we have a write lock
    pub fn is_write_locked(&self) -> (b: bool)
        ensures
            b == (self.mode == LockMode::Exclusive),
    {
        match self.mode {
            LockMode::Exclusive => true,
            _ => false,
        }
    }

    /// Check if we have a read lock: a shared or an exclusive one
    pub fn is_read_locked(&self) -> (b: bool)
        ensures
            b == (self.mode == LockMode::Shared || self.mode == LockMode::Exclusive),
    {
        match self.mode {
            LockMode::Unlocked => false,
            _ => true,
        }
    }
}

} // verus!
