use vstd::prelude::*;

verus! {

/// An allocation on a memory chunk: its address and its size in bytes.
#[derive(Debug, Clone, Copy, PartialEq, Eq, Structural)]
pub struct AllocEntry {
    pub ptr: usize,
    pub alloc_size: usize,
}

} // verus!
