//! A minimal configuration-space device used for wiring and testing.

use vstd::prelude::*;

use std::sync::{Arc, Mutex};

use crate::pci_device::PciDevice;

verus! {

#[verifier::external_type_specification]
#[verifier::external_body]
#[verifier::reject_recursive_types(T)]
pub struct ExMutex<T: ?Sized>(Mutex<T>);

/// A stand-in device whose configuration space is a flat file of 64
/// 32-bit registers.
pub struct DummyPciDevice {
    /// The configuration registers.
    pub config_regs: Vec<u32>,
}

impl DummyPciDevice {
    /// A fresh device with every register zeroed.
    pub fn new() -> (r: Self)
        ensures
            r.config_regs@.len() == 64,
            forall|i: int| 0 <= i < 64 ==> r.config_regs@[i] == 0u32,
    {
        DummyPciDevice { config_regs: vec![0u32; 64] }
    }

    /// The device name.
    pub fn get_name(&self) -> (r: String)
        ensures
            r@ == "Dummy Pci"@,
    {
        "Dummy Pci".to_owned()
    }
}

/// The first base-address region of the stand-in device: a shared handle
/// to the device together with the region's placement.
pub struct DummyPciBar0 {
    /// The device the region belongs to, shared with its bus.
    pub dev: Arc<Mutex<DummyPciDevice>>,
    /// Region size.
    pub size: u64,
    /// Region base address, zero until placed.
    pub addr: u64,
    /// The configuration register holding this region's base.
    pub reg_idx: usize,
}

impl DummyPciBar0 {
    /// A one-page region for `device`, not yet placed.
    pub fn new(device: Arc<Mutex<DummyPciDevice>>) -> (r: Self)
        ensures
            r.dev == device,
            r.size == 0x1000,
            r.addr == 0,
            r.reg_idx == 0,
    {
        DummyPciBar0 { dev: device, size: 0x1000, addr: 0, reg_idx: 0 }
    }
}

impl PciDevice for DummyPciDevice {
    open spec fn regs(&self) -> Seq<u32> {
        self.config_regs@
    }

    /// A write keeps the byte lane at `offset` of the old value and merges
    /// the first data byte into the low lane.
    open spec fn write_result(&self, reg_idx: int, offset: u64, data: Seq<u8>) -> u32 {
        (self.config_regs@[reg_idx] & (0xffu32 << offset)) | (data[0] as u32)
    }

    fn config_register_read(&self, reg_idx: usize) -> (r: u32) {
        self.config_regs[reg_idx]
    }

    fn config_register_write(&mut self, reg_idx: usize, offset: u64, data: &Vec<u8>) {
        let old_val = self.config_regs[reg_idx];
        self.config_regs[reg_idx] = old_val & (0xffu32 << offset) | data[0] as u32;
    }
}

} // verus!
