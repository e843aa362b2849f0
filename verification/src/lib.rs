//! Binary search over a sorted slice, split into resumable steps that are
//! separated by prefetch hints, and a driver that interleaves many such
//! searches so that one search's memory fetch overlaps another's comparison.
//!
//! A search reads an element only one step after it has hinted it. Between
//! the two steps the driver advances the other searches of the batch, so the
//! fetch of one search is under way while the others compare.
//!
//! - [`model`] is the mathematical model: the states of a search, the step
//!   that one resume makes, the outcome of a run of steps.
//! - [`laws`] holds what is proved of the model: how many resumes a search
//!   takes, and that in an ascending sequence its outcome is the result of a
//!   sorted lookup.
//! - [`hint`] is the prefetch hint that a search issues.
//! - [`search`] is the suspendable search itself, and the conventional binary
//!   search that it is measured against.
//! - [`driver`] advances a batch of searches in rounds.

pub mod driver;
pub mod hint;
pub mod laws;
pub mod model;
pub mod search;
