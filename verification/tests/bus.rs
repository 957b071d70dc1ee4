use vm_allocator::{AddressAllocator, IdAllocator};
use vm_device::device::{IoResource, IoType, IrqResource};
use vm_device::device_manager::DeviceManager;
use vm_device::dummy_device::DummyPciDevice;
use vm_device::pci_bus::{PciBus, PciBusDevice};
use vm_device::system_allocate::SystemAllocator;

fn bus_with_device_at_slot_one(reg0: u32) -> PciBus<DummyPciDevice> {
    let mut bus: PciBus<DummyPciDevice> = PciBus::new();
    let mut dev = DummyPciDevice::new();
    dev.config_regs[0] = reg0;
    bus.insert(dev);
    bus
}

fn set_address(bus: &mut PciBus<DummyPciDevice>, bytes: [u8; 4]) {
    let data = vec![bytes[0], bytes[1], bytes[2], bytes[3]];
    bus.config_address_write(0xcf8, &data);
}

#[test]
fn address_register_round_trips_enable_slot_one() {
    let mut bus: PciBus<DummyPciDevice> = PciBus::new();
    // enable bit set, bus 0, device slot 1, function 0, register 0
    set_address(&mut bus, [0x00, 0x08, 0x00, 0x80]);
    let mut back = vec![0u8; 4];
    bus.config_address_read(0xcf8, &mut back);
    assert_eq!(back, vec![0x00, 0x08, 0x00, 0x80]);
}

#[test]
fn data_register_read_resolves_slot_one_register_zero() {
    let mut bus = bus_with_device_at_slot_one(0x1000_0000);
    set_address(&mut bus, [0x00, 0x08, 0x00, 0x80]);
    let mut word = vec![0u8; 4];
    bus.config_address_read(0xcfc, &mut word);
    assert_eq!(word, vec![0x00, 0x00, 0x00, 0x10]);
}

#[test]
fn data_register_read_with_empty_slot_returns_all_ones() {
    let mut bus: PciBus<DummyPciDevice> = PciBus::new();
    set_address(&mut bus, [0x00, 0x08, 0x00, 0x80]);
    let mut word = vec![0u8; 4];
    bus.config_address_read(0xcfc, &mut word);
    assert_eq!(word, vec![0xff, 0xff, 0xff, 0xff]);
}

#[test]
fn disabled_data_register_write_is_a_no_op() {
    let mut bus = bus_with_device_at_slot_one(0x5555_aaaa);
    // enable bit clear, same slot and register selection
    set_address(&mut bus, [0x00, 0x08, 0x00, 0x00]);
    let payload = vec![0x77u8];
    bus.config_address_write(0xcfc, &payload);
    // the targeted register is unchanged from before the write attempt
    let mut word = vec![0u8; 4];
    bus.config_address_read(0xcfc, &mut word);
    assert_eq!(word, vec![0xaa, 0xaa, 0x55, 0x55]);
}

#[test]
fn enabled_data_register_write_reaches_the_device() {
    let mut bus = bus_with_device_at_slot_one(0x0000_0000);
    set_address(&mut bus, [0x00, 0x08, 0x00, 0x80]);
    let payload = vec![0x2au8];
    bus.config_address_write(0xcfc, &payload);
    assert_eq!(bus.devices[0].config_regs[0], 0x2a);
}

#[test]
fn partial_address_write_merges_one_byte_lane() {
    let mut bus: PciBus<DummyPciDevice> = PciBus::new();
    set_address(&mut bus, [0x11, 0x22, 0x33, 0x44]);
    // replace byte 1 only
    let one = vec![0x99u8];
    bus.config_address_write(0xcf9, &one);
    let mut back = vec![0u8; 4];
    bus.config_address_read(0xcf8, &mut back);
    assert_eq!(back, vec![0x11, 0x99, 0x33, 0x44]);
}

#[test]
fn straddling_address_write_is_ignored() {
    let mut bus: PciBus<DummyPciDevice> = PciBus::new();
    set_address(&mut bus, [0x11, 0x22, 0x33, 0x44]);
    // two bytes at offset 3 would straddle the register boundary
    let two = vec![0xaau8, 0xbbu8];
    bus.config_address_write(0xcfb, &two);
    let mut back = vec![0u8; 4];
    bus.config_address_read(0xcf8, &mut back);
    assert_eq!(back, vec![0x11, 0x22, 0x33, 0x44]);
}

#[test]
fn read_past_word_boundary_returns_all_ones_bytes() {
    let mut bus: PciBus<DummyPciDevice> = PciBus::new();
    set_address(&mut bus, [0x11, 0x22, 0x33, 0x44]);
    // six bytes starting at 0xcfa extend past the 4-byte word
    let mut long = vec![0u8; 6];
    bus.config_address_read(0xcfa, &mut long);
    assert_eq!(long, vec![0xff; 6]);
}

#[test]
fn dummy_device_reports_its_name() {
    let dev = DummyPciDevice::new();
    assert_eq!(dev.get_name(), "Dummy Pci".to_string());
    let bus: PciBus<DummyPciDevice> = PciBus::new();
    assert_eq!(bus.get_name(), String::new());
}

#[test]
fn stub_allocator_always_grants_base_zero() {
    let mut alloc = SystemAllocator::new();
    assert_eq!(alloc.allocate_pio_addresses(0x1000), Some(0));
    assert_eq!(alloc.allocate_mmio_addresses(0x1000), Some(0));
}

#[test]
fn bar_region_starts_unplaced() {
    let dev = std::sync::Arc::new(std::sync::Mutex::new(DummyPciDevice::new()));
    let bar = vm_device::dummy_device::DummyPciBar0::new(dev.clone());
    assert_eq!(bar.size, 0x1000);
    assert_eq!(bar.addr, 0);
    assert_eq!(bar.reg_idx, 0);
    assert_eq!(bar.dev.lock().unwrap().config_regs.len(), 64);
}

#[test]
fn nonzero_bus_or_function_reads_all_ones() {
    let mut bus = bus_with_device_at_slot_one(0x1234_5678);
    // bus number 1 selects nothing on this single-bus topology
    set_address(&mut bus, [0x00, 0x08, 0x01, 0x80]);
    let mut word = vec![0u8; 4];
    bus.config_address_read(0xcfc, &mut word);
    assert_eq!(word, vec![0xff; 4]);
    // function 1 selects nothing either: the children are single-function
    set_address(&mut bus, [0x00, 0x09, 0x00, 0x80]);
    bus.config_address_read(0xcfc, &mut word);
    assert_eq!(word, vec![0xff; 4]);
}

#[test]
fn data_register_write_merges_at_the_byte_offset() {
    let mut bus = bus_with_device_at_slot_one(0xffff_ffff);
    set_address(&mut bus, [0x00, 0x08, 0x00, 0x80]);
    // a write at data-register offset 1 keeps the masked lane of the old
    // value and merges the first byte into the low lane
    let payload = vec![0x2au8];
    bus.config_address_write(0xcfd, &payload);
    assert_eq!(bus.devices[0].config_regs[0], (0xffff_ffff & (0xff << 1)) | 0x2a);
}

#[test]
fn bus_dispatches_through_the_manager() {
    let pio = AddressAllocator::new(0x100, 0x10000).unwrap();
    let mmio = AddressAllocator::new(0x1000_0000, 0x1000_0000).unwrap();
    let irq = IdAllocator::new(5, 23).unwrap();
    let mut mgr: DeviceManager<PciBusDevice> = DeviceManager::new(pio, mmio, irq);

    let mut dev = DummyPciDevice::new();
    dev.config_regs[0] = 0x1000_0000;
    let mut bus: PciBus<DummyPciDevice> = PciBus::new();
    bus.insert(dev);
    let adapter = PciBusDevice { name: String::from("pci-bus"), bus };
    let mut res = vec![IoResource::new(Some(0xcf8), 8, IoType::Pio)];
    assert!(mgr.register_device(adapter, None, &mut res, Some(IrqResource(None))).is_ok());

    // select slot 1, register 0, enable bit set, through the port window
    let select = vec![0x00u8, 0x08, 0x00, 0x80];
    assert!(mgr.write(0xcf8, &select, IoType::Pio).is_ok());
    let mut word = vec![0u8; 4];
    assert!(mgr.read(0xcfc, &mut word, IoType::Pio).is_ok());
    assert_eq!(word, vec![0x00, 0x00, 0x00, 0x10]);
}
