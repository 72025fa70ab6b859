use vstd::prelude::*;

verus! {

/// Something a document calls to announce an event (storage changed,
/// timeline changed, rebase available).
pub trait Signal {
    fn emit(&mut self);
}

/// A signal that announces nothing.
pub struct NoopSignal;

impl Signal for NoopSignal {
    fn emit(&mut self) {
    }
}

} // verus!
