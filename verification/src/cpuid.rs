//! The callback through which the host names the current CPU.

use vstd::prelude::*;

verus! {

/// Supplies the id of the CPU the caller is running on. The value only seeds
/// the starting position of an allocation scan, spreading threads across a
/// tree row: correctness never depends on it, so no contract is asked of it.
pub trait Cpu {
    /// Returns the id of the current CPU.
    fn current_cpu() -> usize;
}

} // verus!
