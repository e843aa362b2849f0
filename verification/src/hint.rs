//! The prefetch hint that a search issues one step before it reads an element.

use vstd::prelude::*;

verus! {

/// A way to tell the memory hierarchy that `element` will be read soon.
///
/// A hint has no effect that a program can observe: the searches of this
/// crate return the same results whatever the implementation does with the
/// reference, and an implementation that does nothing is a correct one.
pub trait PrefetchHint {
    /// Asks for `element` to be brought closer to the processor, without
    /// waiting for it.
    fn prefetch(&self, element: &i32);
}

/// The hint for targets that offer no prefetch primitive: it does nothing.
#[derive(Clone, Copy, Debug, Default)]
pub struct NoPrefetch;

impl PrefetchHint for NoPrefetch {
    fn prefetch(&self, element: &i32) {
    }
}

} // verus!
