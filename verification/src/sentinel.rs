//! The write-once slot holding the process-wide sentinel that stands for
//! "absent/undefined".
//!
//! Exactly one sentinel stands per process lifetime: the slot is filled once
//! during initialization, a second write is a no-op rather than an error, and
//! every later read yields the same sentinel. The sentinel is distinct from
//! null, and its boolean coercion is always false.

use vstd::prelude::*;

use crate::host::HostValue;

verus! {

/// The slot that holds the sentinel once initialization has run.
pub struct SentinelRegistry {
    installed: bool,
}

impl SentinelRegistry {
    /// Whether the one-time initialization has run.
    pub closed spec fn is_initialized(self) -> bool {
        self.installed
    }

    /// A fresh, still-empty slot.
    pub fn new() -> (r: Self)
        ensures
            !r.is_initialized(),
    {
        SentinelRegistry { installed: false }
    }

    /// Fill the slot. The first write fills it; any later write is a no-op,
    /// never an error: the slot stays initialized either way.
    pub fn install(&mut self)
        ensures
            final(self).is_initialized(),
    {
        self.installed = true;
    }

    /// Read the sentinel: the same value on every read once the slot is
    /// initialized, and nothing before.
    pub fn sentinel(&self) -> (r: Option<HostValue>)
        ensures
            self.is_initialized() ==> r == Some(HostValue::Sentinel),
            !self.is_initialized() ==> r == None::<HostValue>,
    {
        if self.installed {
            Some(HostValue::Sentinel)
        } else {
            None
        }
    }
}

/// The textual representation of the sentinel.
pub fn sentinel_repr() -> (r: &'static str)
    ensures
        r@ == "Undefined"@,
{
    "Undefined"
}

/// The boolean coercion of the sentinel: always false, unlike any other
/// non-null host value the boundary produces.
pub fn sentinel_truthy() -> (r: bool)
    ensures
        !r,
{
    false
}

} // verus!
