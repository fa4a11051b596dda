//! Constants that several layers of the Emscripten runtime agree on.

use vstd::prelude::*;

verus! {

/// The instant that every clock of a guest shows, in nanoseconds since the Unix
/// epoch: midnight of 31 December 2025.
pub const VIRTUAL_EPOCH_NS: u64 = 1_767_139_200_000_000_000;

} // verus!
