//! The result bus: one place for one completed result per cycle.

use crate::execution_path::{ExecResult, RStag, TagView};
use vstd::prelude::*;

verus! {

/// Carries at most one `(tag, result)` pair from the unit that completed it
/// to the commit of the next cycle. The single place is the contention that
/// reservation stations exist for: a second result offered in the same cycle
/// is turned away and its unit offers it again in the next.
#[derive(Debug)]
pub struct ResultBus {
    held: Option<(RStag, ExecResult)>,
}

impl View for ResultBus {
    type V = Option<(TagView, ExecResult)>;

    closed spec fn view(&self) -> Option<(TagView, ExecResult)> {
        match self.held {
            Some((tag, result)) => Some((tag@, result)),
            None => None,
        }
    }
}

impl ResultBus {
    /// An empty bus.
    pub fn new() -> (bus: ResultBus)
        ensures
            bus@ is None,
    {
        ResultBus { held: None }
    }

    /// Whether a result can be placed.
    pub fn is_free(&self) -> (free: bool)
        ensures
            free == (self@ is None),
    {
        self.held.is_none()
    }

    /// Places `(tag, result)` if the bus is empty and says whether it did.
    /// A bus that holds a result keeps it and turns the new one away.
    pub fn put(&mut self, tag: RStag, result: ExecResult) -> (placed: bool)
        ensures
            placed == (old(self)@ is None),
            placed ==> final(self)@ == Some((tag@, result)),
            !placed ==> final(self)@ == old(self)@,
    {
        if self.held.is_none() {
            self.held = Some((tag, result));
            true
        } else {
            false
        }
    }

    /// Removes and returns what the bus holds.
    pub fn take(&mut self) -> (taken: Option<(RStag, ExecResult)>)
        ensures
            final(self)@ is None,
            match taken {
                Some((tag, result)) => old(self)@ == Some((tag@, result)),
                None => old(self)@ is None,
            },
    {
        self.held.take()
    }
}

} // verus!
