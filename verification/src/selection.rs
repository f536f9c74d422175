//! Which parts of a session a parse keeps.

use vstd::prelude::*;

verus! {

/// The parts of a session that a parse keeps: the metadata, and each group
/// of events by the kind of their body.
#[derive(Debug, Clone, Copy, PartialEq, Eq)]
pub struct ParseSelection {
    pub meta: bool,
    pub messages: bool,
    pub operations: bool,
    pub usage: bool,
    pub state: bool,
    pub snapshots: bool,
    pub raw_unknown: bool,
}

impl ParseSelection {
    /// Whether every part is kept.
    pub open spec fn keeps_all(self) -> bool {
        &&& self.meta
        &&& self.messages
        &&& self.operations
        &&& self.usage
        &&& self.state
        &&& self.snapshots
        &&& self.raw_unknown
    }

    /// The selection that keeps every part.
    pub fn full() -> (s: Self)
        ensures
            s.keeps_all(),
    {
        ParseSelection {
            meta: true,
            messages: true,
            operations: true,
            usage: true,
            state: true,
            snapshots: true,
            raw_unknown: true,
        }
    }

    /// The selection that keeps nothing.
    pub fn empty() -> (s: Self)
        ensures
            !s.meta && !s.messages && !s.operations && !s.usage && !s.state && !s.snapshots
                && !s.raw_unknown,
    {
        ParseSelection {
            meta: false,
            messages: false,
            operations: false,
            usage: false,
            state: false,
            snapshots: false,
            raw_unknown: false,
        }
    }

    /// The selection that keeps the session metadata and no event.
    pub fn meta_only() -> (s: Self)
        ensures
            s.meta && !s.messages && !s.operations && !s.usage && !s.state && !s.snapshots
                && !s.raw_unknown,
    {
        ParseSelection { meta: true, ..Self::empty() }
    }

    /// This selection, keeping prompts and responses as well.
    pub fn with_messages(self) -> (s: Self)
        ensures
            s == (Self { messages: true, ..self }),
    {
        ParseSelection { messages: true, ..self }
    }

    /// Whether every part is kept.
    pub fn is_full(self) -> (b: bool)
        ensures
            b == self.keeps_all(),
    {
        self.meta && self.messages && self.operations && self.usage && self.state && self.snapshots
            && self.raw_unknown
    }

    /// Whether the session metadata is kept.
    pub fn includes_meta(self) -> (b: bool)
        ensures
            b == self.meta,
    {
        self.meta
    }

    /// Whether prompts and responses are kept.
    pub fn includes_messages(self) -> (b: bool)
        ensures
            b == self.messages,
    {
        self.messages
    }

    /// Whether tool operations are kept.
    pub fn includes_operations(self) -> (b: bool)
        ensures
            b == self.operations,
    {
        self.operations
    }

    /// Whether usage records are kept.
    pub fn includes_usage(self) -> (b: bool)
        ensures
            b == self.usage,
    {
        self.usage
    }

    /// Whether state changes are kept.
    pub fn includes_state(self) -> (b: bool)
        ensures
            b == self.state,
    {
        self.state
    }

    /// Whether snapshots are kept.
    pub fn includes_snapshots(self) -> (b: bool)
        ensures
            b == self.snapshots,
    {
        self.snapshots
    }

    /// Whether records that no parser understood are kept.
    pub fn includes_raw_unknown(self) -> (b: bool)
        ensures
            b == self.raw_unknown,
    {
        self.raw_unknown
    }
}

} // verus!
