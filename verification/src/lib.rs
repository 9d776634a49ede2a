//! Verified construction of level-of-detail image pyramids for stacks of
//! grayscale slice images.
//!
//! The crate plans the pyramid levels from the first slice's dimensions,
//! selects and orders the input slices, runs the resumable group-based
//! reduction as an explicit decision machine, and reports weighted progress
//! to a caller-supplied observer.  All file system work is left to the
//! caller, which drives the machine with events.

pub mod builder;
pub mod codec;
pub mod error;
pub mod kernel;
pub mod naming;
pub mod plan;
pub mod progress;
pub mod select;
