//! Layout of a full configuration space, reserved for devices that model
//! writable-bit masks and capability chains.

use vstd::prelude::*;

verus! {

/// The configuration space of one device node: 64 32-bit registers (256
/// bytes), accessed with whole-word reads and writes from the guest.
#[allow(dead_code)]
pub struct PciConfiguration {
    /// The register file.
    registers: Vec<u32>,
    /// Writable bits for each register.
    writable_bits: Vec<u32>,
    /// Which base-address registers are taken.
    bar_used: Vec<bool>,
    /// Byte offset and size of the last capability, if any.
    last_capability: Option<(usize, usize)>,
}

} // verus!
