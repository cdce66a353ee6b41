//! Rule-execution core of a syntax-tree linter: rule and group keys, a
//! metadata registry, a position-ordered signal queue, suppression-comment
//! resolution, query dispatch and the drain loop that streams signals to a
//! sink that may stop the run.
use vstd::prelude::*;

pub mod text;
pub mod keys;
pub mod queue;
pub mod registry;
pub mod suppression;
pub mod matcher;
pub mod analyzer;
pub mod numeric_literals;

verus! {

} // verus!
