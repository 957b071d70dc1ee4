//! A trivial placeholder allocator that always grants base zero, kept for
//! wiring experiments that need no real placement.

use vstd::prelude::*;

verus! {

/// An allocator stub with no state.
pub struct SystemAllocator {}

impl SystemAllocator {
    /// Create the stub.
    pub fn new() -> (r: Self)
        ensures
            r == (SystemAllocator {  }),
    {
        SystemAllocator {  }
    }

    /// Grant a port range; the stub always answers base zero.
    pub fn allocate_pio_addresses(&mut self, _size: u64) -> (r: Option<u64>)
        ensures
            r == Some(0u64),
    {
        Some(0)
    }

    /// Grant a memory range; the stub always answers base zero.
    pub fn allocate_mmio_addresses(&mut self, _size: u64) -> (r: Option<u64>)
        ensures
            r == Some(0u64),
    {
        Some(0)
    }
}

} // verus!
