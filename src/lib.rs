//! A bounded-memory merge sort over sequential storage.
//!
//! The engine (`merge_sort`) sees its data only through a forward cursor and an
//! append-only sink (`backend`), so the same algorithm sorts a vector in memory
//! (`in_memory`) or a file of tokens. `runs` holds the mathematical model that
//! the engine's contracts are stated in, and the laws proved of it.
use vstd::prelude::*;

pub mod backend;
pub mod in_memory;
pub mod merge_sort;
pub mod metrics;
pub mod order;
pub mod runs;
pub mod tokens;

verus! {

} // verus!
