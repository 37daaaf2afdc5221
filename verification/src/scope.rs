//! The life of a scope: open, written to any number of times, closed.

use vstd::prelude::*;
use crate::sink::WriteError;

verus! {

/// Where a scope stands. A scope starts `Open`, is `Writing` once a value has
/// been written to it, and ends `Closed`. Nothing leads out of `Closed`: a
/// write to a closed scope is refused, and further writes need a new scope.
#[derive(Clone, Copy, Debug, PartialEq, Eq, Structural)]
pub enum Scope {
    Open,
    Writing,
    Closed,
}

impl Scope {
    /// Whether a write to the scope is taken.
    pub open spec fn accepts(self) -> bool {
        self != Scope::Closed
    }

    /// What a write to the scope is answered.
    pub open spec fn answer(self) -> Result<(), WriteError> {
        if self.accepts() {
            Ok(())
        } else {
            Err(WriteError::ScopeClosed)
        }
    }

    /// The scope after a write was attempted.
    pub open spec fn after_write(self) -> Scope {
        if self == Scope::Closed {
            Scope::Closed
        } else {
            Scope::Writing
        }
    }

    /// The scope after `n` writes were attempted.
    pub open spec fn after_writes(self, n: nat) -> Scope
        decreases n,
    {
        if n == 0 {
            self
        } else {
            self.after_writes((n - 1) as nat).after_write()
        }
    }

    /// A new scope.
    pub fn open() -> (r: Scope)
        ensures
            r == Scope::Open,
    {
        Scope::Open
    }

    /// Whether the scope is closed.
    pub fn is_closed(&self) -> (r: bool)
        ensures
            r == !self.accepts(),
    {
        match self {
            Scope::Closed => true,
            _ => false,
        }
    }

    /// Notes a write. A closed scope refuses it and stays closed.
    pub fn write(&mut self) -> (r: Result<(), WriteError>)
        ensures
            *final(self) == old(self).after_write(),
            r == old(self).answer(),
    {
        match self {
            Scope::Closed => Err(WriteError::ScopeClosed),
            _ => {
                *self = Scope::Writing;
                Ok(())
            },
        }
    }

    /// Closes the scope.
    pub fn close(&mut self)
        ensures
            *final(self) == Scope::Closed,
    {
        *self = Scope::Closed;
    }
}

/// A closed scope stays closed and takes nothing, however many writes are
/// attempted; a scope that is not closed takes every one of them.
pub proof fn lemma_scope_writes(s: Scope, n: nat)
    ensures
        !s.accepts() ==> s.after_writes(n) == Scope::Closed,
        s.accepts() ==> s.after_writes(n).accepts(),
        s.accepts() && n > 0 ==> s.after_writes(n) == Scope::Writing,
    decreases n,
{
    if n > 0 {
        lemma_scope_writes(s, (n - 1) as nat);
    }
}

} // verus!
