//! The configuration bus: the legacy two-register protocol multiplexing
//! access to up to 32 child devices' configuration spaces over an 8-byte
//! port window at 0xCF8, split into a 4-byte address register and a 4-byte
//! data register.

use vstd::prelude::*;

use byteorder::{ByteOrder, LittleEndian};

use crate::device::{Device, IoResource, IoType, IrqResource};
use crate::dummy_device::DummyPciDevice;
use crate::pci_device::PciDevice;

verus! {

/// Bus number encoded in an address-register value: bits 23 to 16.
pub open spec fn cfg_bus(ca: u32) -> u32 {
    (ca >> 16) & 0xff
}

/// Device slot encoded in an address-register value: bits 15 to 11.
/// External slots are 1-based; slot 0 selects no device.
pub open spec fn cfg_slot(ca: u32) -> u32 {
    (ca >> 11) & 0x1f
}

/// Function number encoded in an address-register value: bits 10 to 8.
pub open spec fn cfg_func(ca: u32) -> u32 {
    (ca >> 8) & 0x07
}

/// Word-addressed register number encoded in an address-register value:
/// bits 7 to 2; bits 1 and 0 are ignored.
pub open spec fn cfg_reg(ca: u32) -> u32 {
    (ca >> 2) & 0x3f
}

/// The enable bit: bit 31 of the address register gates data-register
/// writes.
pub open spec fn cfg_enabled(ca: u32) -> bool {
    ca & 0x8000_0000 != 0
}

/// Byte `k` (little-endian) of a 32-bit word.
pub open spec fn word_byte(v: u32, k: int) -> u8 {
    ((v >> ((8 * k) as u32)) & 0xff) as u8
}

/// A 32-bit value read little-endian from the first four bytes.
pub open spec fn le_u32(b: Seq<u8>) -> u32 {
    (b[0] as u32) | (b[1] as u32) << 8 | (b[2] as u32) << 16 | (b[3] as u32) << 24
}

/// The address register after merging `data` at byte `offset`: a write
/// that would straddle the 4-byte boundary, or whose length is not 1, 2 or
/// 4, is ignored.
pub open spec fn merged_address(reg: u32, offset: u64, data: Seq<u8>) -> u32 {
    if offset + data.len() > 4 {
        reg
    } else if data.len() == 1 {
        (reg & !(0xffu32 << ((8 * offset) as u32))) | ((data[0] as u32) << ((8 * offset) as u32))
    } else if data.len() == 2 {
        (reg & !(0xffffu32 << ((8 * offset) as u32))) | ((((data[1] as u32) << 8) | (
        data[0] as u32)) << ((8 * offset) as u32))
    } else if data.len() == 4 {
        le_u32(data)
    } else {
        reg
    }
}

/// Relies on `byteorder::LittleEndian::read_u32`: the first four bytes of
/// the buffer read as one little-endian 32-bit value.
#[verifier::external_body]
fn read_u32_le(data: &Vec<u8>) -> (r: u32)
    requires
        data@.len() >= 4,
    ensures
        r == le_u32(data@),
{
    LittleEndian::read_u32(data)
}

/// The configuration bus.  Child devices are held in slot order; the
/// external slot number of `devices[i]` is `i + 1`.
pub struct PciBus<P> {
    /// The child devices, by 0-based position.
    pub devices: Vec<P>,
    /// The 32-bit address register.
    pub config_address_reg: u32,
}

impl<P: PciDevice> PciBus<P> {
    /// Every child device answers for at least the 64 word-addressed
    /// registers the protocol can select.
    pub open spec fn wf(&self) -> bool {
        forall|i: int| 0 <= i < self.devices@.len() ==> (#[trigger] self.devices@[i]).regs().len() >= 64
    }

    /// The word a data-register read resolves: the selected child's
    /// register, or all ones if the selected bus, function or slot is out
    /// of range or the slot is empty.  This bus is bus zero and its
    /// children are single-function, so any other bus or function selects
    /// nothing.
    pub open spec fn data_word(&self) -> u32 {
        let ca = self.config_address_reg & !0x8000_0000;
        let slot = cfg_slot(ca);
        if cfg_bus(ca) != 0 || cfg_func(ca) != 0 || slot == 0 || slot - 1 >= self.devices@.len() {
            0xffff_ffff
        } else {
            self.devices@[slot - 1].regs()[cfg_reg(ca) as int]
        }
    }

    /// The word any read of the window resolves before byte slicing.
    pub open spec fn read_word(&self, addr: u64) -> u32 {
        if addr < 0xcfc {
            self.config_address_reg
        } else {
            self.data_word()
        }
    }

    /// An empty bus with a cleared address register.
    pub fn new() -> (r: Self)
        ensures
            r.devices@.len() == 0,
            r.config_address_reg == 0,
            r.wf(),
    {
        PciBus { devices: Vec::new(), config_address_reg: 0 }
    }

    /// Add a child device at the next slot.
    pub fn insert(&mut self, dev: P)
        ensures
            final(self).devices@ == old(self).devices@.push(dev),
            final(self).config_address_reg == old(self).config_address_reg,
    {
        self.devices.push(dev);
    }

    /// Split an address-register value into bus, device slot, function and
    /// register numbers.
    fn parse_config_address(&self, config_address: u32) -> (r: (usize, usize, usize, usize))
        ensures
            r.0 == cfg_bus(config_address) as usize,
            r.1 == cfg_slot(config_address) as usize,
            r.2 == cfg_func(config_address) as usize,
            r.3 == cfg_reg(config_address) as usize,
    {
        let bus_number = ((config_address >> 16) & 0xff) as usize;
        let device_number = ((config_address >> 11) & 0x1f) as usize;
        let function_number = ((config_address >> 8) & 0x07) as usize;
        let register_number = ((config_address >> 2) & 0x3f) as usize;
        (bus_number, device_number, function_number, register_number)
    }

    /// Merge 1, 2 or 4 bytes into the address register at a 0 to 3 byte
    /// offset using a byte-lane mask; any write that would straddle the
    /// 4-byte boundary, or whose length is not 1, 2 or 4, is ignored.
    fn set_config_address(&mut self, offset: u64, data: &Vec<u8>)
        ensures
            final(self).devices@ == old(self).devices@,
            final(self).config_address_reg == merged_address(
                old(self).config_address_reg,
                offset,
                data@,
            ),
    {
        if offset > 4 {
            return ;
        }
        if data.len() > 4 - offset as usize {
            return ;
        }
        let (mask, value): (u32, u32) = match data.len() {
            1 => (0x0000_00ffu32 << (offset * 8) as u32, (data[0] as u32) << (offset * 8) as u32),
            2 => (
                0x0000_ffffu32 << (offset * 8) as u32,
                (((data[1] as u32) << 8) | (data[0] as u32)) << (offset * 8) as u32,
            ),
            4 => (0xffff_ffffu32, read_u32_le(data)),
            _ => {
                return ;
            },
        };
        self.config_address_reg = (self.config_address_reg & !mask) | value;
        proof {
            if data@.len() == 4 {
                let r0 = old(self).config_address_reg;
                let v = le_u32(data@);
                assert((r0 & !0xffff_ffffu32) | v == v) by (bit_vector);
            }
        }
    }

    /// Read from the window: an address-register read returns the current
    /// register value, a data-register read resolves the selected child's
    /// register (all ones when the bus, function or slot is out of range
    /// or the slot is empty); either word is then sliced to the requested
    /// byte lanes, and a read past the 4-byte word boundary returns
    /// all-ones bytes instead of partial data.
    pub fn config_address_read(&self, addr: u64, data: &mut Vec<u8>)
        requires
            0xcf8 <= addr <= 0xcff,
            self.wf(),
        ensures
            final(data)@.len() == old(data)@.len(),
            ({
                let start = ((addr - 0xcf8) % 4) as int;
                let end = start + old(data)@.len();
                if end <= 4 {
                    forall|k: int|
                        0 <= k < old(data)@.len() ==> final(data)@[k] == word_byte(
                            self.read_word(addr),
                            start + k,
                        )
                } else {
                    forall|k: int| 0 <= k < old(data)@.len() ==> final(data)@[k] == 0xffu8
                }
            }),
    {
        let value: u32 = if addr <= 0xcfb {
            self.config_address_reg
        } else {
            let masked = self.config_address_reg & !0x8000_0000;
            let (bus_number, device, function, register) = self.parse_config_address(masked);
            proof {
                let ca = masked;
                assert(cfg_reg(ca) < 64) by (bit_vector);
            }
            if bus_number == 0 && function == 0 && device >= 1 && device - 1 < self.devices.len() {
                self.devices[device - 1].config_register_read(register)
            } else {
                0xffff_ffff
            }
        };
        // Only allow reads to the register boundary.
        let start = ((addr - 0xcf8) % 4) as usize;
        let n = data.len();
        if n <= 4 - start {
            let end = start + n;
            let mut i: usize = start;
            while i < end
                invariant
                    start <= i <= end,
                    end == start + n,
                    end <= 4,
                    n == data@.len(),
                    forall|k: int|
                        0 <= k < i - start ==> data@[k] == word_byte(value, start as int + k),
                    forall|k: int| i - start <= k < n ==> data@[k] == old(data)@[k],
                decreases end - i,
            {
                let b = ((value >> ((i * 8) as u32)) & 0xff) as u8;
                data[i - start] = b;
                proof {
                    let sh = (i * 8) as u32;
                    assert(((value >> sh) & 0xff) as u8 == (((value >> sh) & 0xff) as u8)) by {};
                }
                i += 1;
            }
        } else {
            let mut i: usize = 0;
            while i < n
                invariant
                    0 <= i <= n,
                    n == data@.len(),
                    forall|k: int| 0 <= k < i ==> data@[k] == 0xffu8,
                decreases n - i,
            {
                data[i] = 0xff;
                i += 1;
            }
        }
    }

    /// Write to the window: bytes to the address register are merged
    /// through [`Self::set_config_address`]; a data-register write is
    /// forwarded to the selected child only when the enable bit is set,
    /// carrying the register number, the intra-register byte offset and
    /// the data, and is silently dropped for an empty slot.
    pub fn config_address_write(&mut self, addr: u64, data: &Vec<u8>)
        requires
            0xcf8 <= addr <= 0xcff,
            old(self).wf(),
            addr >= 0xcfc ==> data@.len() >= 1,
        ensures
            final(self).wf(),
            addr <= 0xcfb ==> final(self).devices@ == old(self).devices@
                && final(self).config_address_reg == merged_address(
                old(self).config_address_reg,
                (addr - 0xcf8) as u64,
                data@,
            ),
            addr >= 0xcfc && !cfg_enabled(old(self).config_address_reg)
                ==> *final(self) == *old(self),
            addr >= 0xcfc && cfg_enabled(old(self).config_address_reg) ==> ({
                let ca = old(self).config_address_reg & !0x8000_0000;
                let slot = cfg_slot(ca);
                &&& final(self).config_address_reg == old(self).config_address_reg
                &&& final(self).devices@.len() == old(self).devices@.len()
                &&& (slot == 0 || slot - 1 >= old(self).devices@.len()
                    ==> *final(self) == *old(self))
                &&& (1 <= slot && slot - 1 < old(self).devices@.len() ==> {
                    let di = slot - 1;
                    &&& forall|i: int|
                        0 <= i < old(self).devices@.len() && i != di ==> #[trigger] final(self).devices@[i] == old(self).devices@[i]
                    &&& final(self).devices@[di].regs().len() == old(self).devices@[di].regs().len()
                    &&& final(self).devices@[di].regs()[cfg_reg(ca) as int] == old(
                        self,
                    ).devices@[di].write_result(cfg_reg(ca) as int, (addr - 0xcfc) as u64, data@)
                    &&& forall|j: int|
                        0 <= j < old(self).devices@[di].regs().len() && j != cfg_reg(ca)
                            ==> #[trigger] final(self).devices@[di].regs()[j] == old(self).devices@[di].regs()[j]
                })
            }),
    {
        if addr <= 0xcfb {
            self.set_config_address(addr - 0xcf8, data);
        } else {
            let enabled = (self.config_address_reg & 0x8000_0000) != 0;
            if !enabled {
                return ;
            }
            let masked = self.config_address_reg & !0x8000_0000;
            let (_bus, device, _function, register) = self.parse_config_address(masked);
            proof {
                let ca = masked;
                assert(cfg_reg(ca) < 64) by (bit_vector);
            }
            if device >= 1 && device - 1 < self.devices.len() {
                let d = &mut self.devices[device - 1];
                d.config_register_write(register, addr - 0xcfc, data);
            }
        }
    }

    /// The bus name.
    pub fn get_name(&self) -> (r: String)
        ensures
            r@ == Seq::<char>::empty(),
    {
        String::new()
    }
}

impl PciBus<DummyPciDevice> {
    /// Check that every child answers the 64 word-addressed registers the
    /// protocol can select, so a caller can discharge the bus's
    /// well-formedness before dispatching into it.
    pub fn ready(&self) -> (r: bool)
        ensures
            r == self.wf(),
    {
        let n = self.devices.len();
        let mut k: usize = 0;
        while k < n
            invariant
                n == self.devices@.len(),
                0 <= k <= n,
                forall|i: int| 0 <= i < k ==> (#[trigger] self.devices@[i]).regs().len() >= 64,
            decreases n - k,
        {
            if self.devices[k].config_regs.len() < 64 {
                proof {
                    assert(self.devices@[k as int].regs().len() < 64);
                }
                return false;
            }
            k += 1;
        }
        true
    }
}

/// The configuration bus adapted to the manager's device capability.  It
/// occupies a fixed, well-known port window and never participates in
/// dynamic placement, so `set_resources` is a no-op.  The adapter is
/// total: an access outside the window, an empty payload or a bus whose
/// children cannot be dispatched into is answered defensively, so the
/// protocol functions' preconditions are discharged here by proof.
pub struct PciBusDevice {
    /// The name the manager registers the window under.
    pub name: String,
    /// The adapted bus.
    pub bus: PciBus<DummyPciDevice>,
}

impl Device for PciBusDevice {
    fn name(&self) -> String {
        self.name.clone()
    }

    fn read(&mut self, addr: u64, data: &mut Vec<u8>, _io_type: IoType) {
        if 0xcf8 <= addr && addr <= 0xcff && self.bus.ready() {
            self.bus.config_address_read(addr, data);
        } else {
            // all-ones, the conventional answer for an absent device
            let n = data.len();
            let mut i: usize = 0;
            while i < n
                invariant
                    0 <= i <= n,
                    n == data@.len(),
                decreases n - i,
            {
                data[i] = 0xff;
                i += 1;
            }
        }
    }

    fn write(&mut self, addr: u64, data: &Vec<u8>, _io_type: IoType) {
        if 0xcf8 <= addr && addr <= 0xcff && data.len() >= 1 && self.bus.ready() {
            self.bus.config_address_write(addr, data);
        }
    }

    fn set_resources(&mut self, _res: &Vec<IoResource>, _irq: Option<IrqResource>) {
    }
}

} // verus!

