//! Capability of devices that expose a configuration-register file.

use vstd::prelude::*;

verus! {

/// A device with a 32-bit configuration-register file, reached through the
/// configuration bus's two-register protocol.
pub trait PciDevice {
    /// The device's configuration registers as a mathematical sequence.
    spec fn regs(&self) -> Seq<u32>;

    /// The value the register at `reg_idx` takes when `data` is written to
    /// it at the intra-register byte `offset`.
    spec fn write_result(&self, reg_idx: int, offset: u64, data: Seq<u8>) -> u32;

    /// Read the configuration register at `reg_idx`.
    fn config_register_read(&self, reg_idx: usize) -> (r: u32)
        requires
            reg_idx < self.regs().len(),
        ensures
            r == self.regs()[reg_idx as int],
    ;

    /// Write the configuration register at `reg_idx`, merging `data` at the
    /// intra-register byte `offset`.  The write gives that register the
    /// value [`Self::write_result`] describes, touches no other register,
    /// and never changes how many registers the device has.
    fn config_register_write(&mut self, reg_idx: usize, offset: u64, data: &Vec<u8>)
        requires
            reg_idx < old(self).regs().len(),
            offset < 4,
            data@.len() >= 1,
        ensures
            final(self).regs().len() == old(self).regs().len(),
            final(self).regs()[reg_idx as int] == old(self).write_result(
                reg_idx as int,
                offset,
                data@,
            ),
            forall|j: int|
                0 <= j < old(self).regs().len() && j != reg_idx ==> final(self).regs()[j] == old(
                    self,
                ).regs()[j],
    ;
}

} // verus!
