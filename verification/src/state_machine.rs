//! The application state shared by all clients, and the closed set of
//! transitions that may change it.
//!
//! The state is a signed 64-bit counter. Applying a transition is total:
//! every transition succeeds on every state. Overflow policy: `Add` and
//! `Subtract` wrap around in two's complement (`i64` wrapping arithmetic).

use vstd::prelude::*;

verus! {

/// One request to change the shared counter. Adding a transition kind
/// requires updating both the wire schema and `Counter::apply` in lockstep.
#[derive(Debug, Clone, PartialEq, Eq, Structural)]
pub enum CounterTransition {
    Add(i64),
    Subtract(i64),
    Reset,
}

/// A conflict reported by `Counter::apply`. The counter's transition set is
/// total, so `apply` always returns `Ok` and never produces this value; the
/// pathway is reserved for richer domains.
#[derive(Debug, Clone, PartialEq, Eq, Structural)]
pub struct ApplyConflict;

/// The shared application state: a single signed counter value.
#[derive(Debug, Clone)]
pub struct Counter {
    value: i64,
}

/// The value of the counter after one transition, with wrapping arithmetic.
pub open spec fn spec_apply(v: i64, t: CounterTransition) -> i64 {
    match t {
        CounterTransition::Add(n) => v.wrapping_add(n),
        CounterTransition::Subtract(n) => v.wrapping_sub(n),
        CounterTransition::Reset => 0i64,
    }
}

impl Counter {
    /// The current counter value, as contracts see it.
    pub closed spec fn view(&self) -> i64 {
        self.value
    }

    /// A fresh counter starting at zero.
    pub fn new() -> (c: Counter)
        ensures
            c@ == 0i64,
    {
        Counter { value: 0 }
    }

    /// The current counter value.
    pub fn value(&self) -> (v: i64)
        ensures
            v == self@,
    {
        self.value
    }

    /// Applies one transition in place. The transition set is total, so the
    /// result is always `Ok` and the new value is exactly `spec_apply`.
    pub fn apply(&mut self, event: CounterTransition) -> (r: Result<(), ApplyConflict>)
        ensures
            r is Ok,
            final(self)@ == spec_apply(old(self)@, event),
    {
        match event {
            CounterTransition::Add(i) => {
                self.value = self.value.wrapping_add(i);
            },
            CounterTransition::Subtract(i) => {
                self.value = self.value.wrapping_sub(i);
            },
            CounterTransition::Reset => {
                self.value = 0;
            },
        }
        Ok(())
    }
}

} // verus!
