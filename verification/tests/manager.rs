use vm_allocator::{AddressAllocator, IdAllocator};
use vm_device::device::{Device, IoResource, IoType, IrqResource};
use vm_device::device_manager::{DeviceManager, Error};

pub struct BusDevice {
    pub config_address: u32,
    pub name: String,
}

impl Device for BusDevice {
    /// Get the device name.
    fn name(&self) -> String {
        self.name.clone()
    }

    /// Read operation.
    fn read(&mut self, _addr: u64, data: &mut Vec<u8>, _io_type: IoType) {
        if data.len() > 4 {
            for d in data {
                *d = 0xff;
            }
            return;
        }
        for i in 0..data.len() {
            data[i] = (self.config_address >> (i * 8) & 0xff) as u8;
        }
    }

    /// Write operation.
    fn write(&mut self, _addr: u64, data: &Vec<u8>, _io_type: IoType) {
        self.config_address = data[0] as u32 & 0xff;
    }

    /// Set the allocated resource to device.
    fn set_resources(&mut self, _res: &Vec<IoResource>, _irq: Option<IrqResource>) {}
}

impl BusDevice {
    pub fn new(name: String) -> Self {
        BusDevice { name, config_address: 0x1000 }
    }

    pub fn get_resource(&self) -> Vec<IoResource> {
        let mut req_vec = Vec::new();
        let res = IoResource::new(Some(0xcf8), 8u64, IoType::Pio);
        req_vec.push(res);
        req_vec
    }
}

fn new_manager() -> DeviceManager<BusDevice> {
    let pio = AddressAllocator::new(0x100, 0x10000).unwrap();
    let mmio = AddressAllocator::new(0x1000_0000, 0x1000_0000).unwrap();
    let irq = IdAllocator::new(5, 23).unwrap();
    DeviceManager::new(pio, mmio, irq)
}

#[test]
fn test_dev_init() -> Result<(), Error> {
    let mut dev_mgr = new_manager();
    let dummy_bus = BusDevice::new("dummy-bus".to_string());
    let mut res_req = dummy_bus.get_resource();

    dev_mgr.register_device(dummy_bus, None, &mut res_req, Some(IrqResource(None)))
}

#[test]
fn register_grants_requested_port_base() {
    let mut mgr = new_manager();
    let dev = BusDevice::new("serial".to_string());
    let mut req = vec![IoResource::new(Some(0x3f8), 8, IoType::Pio)];
    assert!(mgr.register_device(dev, None, &mut req, None).is_ok());
    assert_eq!(req[0].addr, Some(0x3f8));
    assert_eq!(req[0].size, 8);
}

#[test]
fn duplicate_name_fails_with_exist_and_first_stays_reachable() {
    let mut mgr = new_manager();
    let first = BusDevice::new("twin".to_string());
    let mut req1 = vec![IoResource::new(Some(0xcf8), 8, IoType::Pio)];
    assert!(mgr.register_device(first, None, &mut req1, None).is_ok());

    let second = BusDevice::new("twin".to_string());
    let mut req2 = vec![IoResource::new(Some(0x2f8), 8, IoType::Pio)];
    let r = mgr.register_device(second, None, &mut req2, None);
    assert!(matches!(r, Err(Error::Exist)));

    // the first registration is intact and reachable at its port
    let mut buf = vec![0u8; 2];
    assert!(mgr.read(0xcf8, &mut buf, IoType::Pio).is_ok());
    // BusDevice::read copies the low bytes of its config_address (0x1000)
    assert_eq!(buf, vec![0x00, 0x10]);
}

#[test]
fn dispatch_reaches_device_inside_range_only() {
    let mut mgr = new_manager();
    let dev = BusDevice::new("mmio-dev".to_string());
    let mut req = vec![IoResource::new(Some(0x1000_1000), 0x100, IoType::Mmio)];
    assert!(mgr.register_device(dev, None, &mut req, None).is_ok());

    let mut buf = vec![0u8; 2];
    assert!(mgr.read(0x1000_1050, &mut buf, IoType::Mmio).is_ok());
    assert_eq!(buf, vec![0x00, 0x10]);
    assert!(matches!(mgr.read(0x1000_1100, &mut buf, IoType::Mmio), Err(Error::NonExist)));
    // the port map does not answer for memory addresses
    assert!(matches!(mgr.read(0x1000_1050, &mut buf, IoType::Pio), Err(Error::NonExist)));
}

#[test]
fn rollback_frees_earlier_reservations_on_overlap() {
    let mut mgr = new_manager();
    let dev = BusDevice::new("greedy".to_string());
    // the second request lies outside the port pool, so allocation fails
    // after the first request was already granted
    let mut req = vec![
        IoResource::new(Some(0x400), 0x10, IoType::Pio),
        IoResource::new(Some(0xdead_0000), 0x10, IoType::Pio),
    ];
    let r = mgr.register_device(dev, None, &mut req, None);
    assert!(matches!(r, Err(Error::Overlap)));

    // the rollback returned 0x400: a later device can take it again
    let retry = BusDevice::new("modest".to_string());
    let mut req2 = vec![IoResource::new(Some(0x400), 0x10, IoType::Pio)];
    assert!(mgr.register_device(retry, None, &mut req2, None).is_ok());
}

#[test]
fn round_trip_restores_allocator_and_maps() {
    let mut mgr = new_manager();
    let dev = BusDevice::new("transient".to_string());
    let mut req = vec![
        IoResource::new(Some(0xcf8), 8, IoType::Pio),
        IoResource::new(Some(0x1000_2000), 0x1000, IoType::Mmio),
        IoResource::new(None, 0x1000, IoType::PhysicalMmio),
    ];
    assert!(mgr.register_device(dev, None, &mut req, None).is_ok());
    let probe = BusDevice::new("transient".to_string());
    assert!(mgr.unregister_device(&probe).is_ok());

    // the ranges are free again and no longer routed
    let mut buf = vec![0u8; 1];
    assert!(matches!(mgr.read(0xcf8, &mut buf, IoType::Pio), Err(Error::NonExist)));
    assert!(matches!(mgr.read(0x1000_2000, &mut buf, IoType::Mmio), Err(Error::NonExist)));
    let again = BusDevice::new("transient".to_string());
    let mut req2 = vec![
        IoResource::new(Some(0xcf8), 8, IoType::Pio),
        IoResource::new(Some(0x1000_2000), 0x1000, IoType::Mmio),
    ];
    assert!(mgr.register_device(again, None, &mut req2, None).is_ok());
}

#[test]
fn unregister_unknown_device_fails_with_non_exist() {
    let mut mgr = new_manager();
    let probe = BusDevice::new("ghost".to_string());
    assert!(matches!(mgr.unregister_device(&probe), Err(Error::NonExist)));
}

#[test]
fn port_request_without_base_fails_with_none_pio_address() {
    let mut mgr = new_manager();
    let dev = BusDevice::new("baseless".to_string());
    let mut req = vec![IoResource::new(None, 8, IoType::Pio)];
    let r = mgr.register_device(dev, None, &mut req, None);
    assert!(matches!(r, Err(Error::NonePIOAddress)));
}

#[test]
fn specific_interrupt_line_fails_with_allocate_irq() {
    let mut mgr = new_manager();
    let dev = BusDevice::new("wants-irq-9".to_string());
    let mut req = vec![IoResource::new(Some(0x500), 8, IoType::Pio)];
    let r = mgr.register_device(dev, None, &mut req, Some(IrqResource(Some(9))));
    assert!(matches!(r, Err(Error::AllocateIrq)));
}

#[test]
fn passthrough_memory_is_reserved_but_never_routed() {
    let mut mgr = new_manager();
    let dev = BusDevice::new("passthrough".to_string());
    let mut req = vec![IoResource::new(Some(0x1000_4000), 0x1000, IoType::PhysicalMmio)];
    assert!(mgr.register_device(dev, None, &mut req, None).is_ok());
    let mut buf = vec![0u8; 1];
    // no VM-exit route exists for the reserved range
    assert!(matches!(mgr.read(0x1000_4000, &mut buf, IoType::Mmio), Err(Error::NonExist)));
    // but the range is held: nobody else can take it
    let rival = BusDevice::new("rival".to_string());
    let mut req2 = vec![IoResource::new(Some(0x1000_4000), 0x1000, IoType::Mmio)];
    assert!(matches!(mgr.register_device(rival, None, &mut req2, None), Err(Error::Overlap)));
}

#[test]
fn write_dispatches_to_owning_device() {
    let mut mgr = new_manager();
    let dev = BusDevice::new("sink".to_string());
    let mut req = vec![IoResource::new(Some(0x700), 4, IoType::Pio)];
    assert!(mgr.register_device(dev, None, &mut req, None).is_ok());

    let out = vec![0x2au8];
    assert!(mgr.write(0x700, &out, IoType::Pio).is_ok());
    // BusDevice::write stores the first byte into its config_address
    let mut buf = vec![0u8; 1];
    assert!(mgr.read(0x701, &mut buf, IoType::Pio).is_ok());
    assert_eq!(buf, vec![0x2a]);
}

#[test]
fn memory_request_without_base_is_auto_placed() {
    let mut mgr = new_manager();
    let dev = BusDevice::new("floating".to_string());
    let mut req = vec![IoResource::new(None, 0x100, IoType::Mmio)];
    assert!(mgr.register_device(dev, None, &mut req, None).is_ok());
    let base = req[0].addr.expect("a base was granted");
    assert!((0x1000_0000..0x2000_0000).contains(&base));
    let mut buf = vec![0u8; 1];
    assert!(mgr.read(base, &mut buf, IoType::Mmio).is_ok());
}

#[test]
fn bounds_check_uses_base_and_size() {
    let pio = AddressAllocator::new(0x100, 0x10000).unwrap();
    let mmio = AddressAllocator::new(0x1000, 0x10000).unwrap();
    let irq = IdAllocator::new(5, 23).unwrap();
    let mut mgr: DeviceManager<BusDevice> = DeviceManager::new(pio, mmio, irq);

    let dev = BusDevice::new("bounded".to_string());
    let mut req = vec![IoResource::new(Some(0x1000), 0x100, IoType::Mmio)];
    assert!(mgr.register_device(dev, None, &mut req, None).is_ok());

    let mut buf = vec![0u8; 1];
    assert!(mgr.read(0x1050, &mut buf, IoType::Mmio).is_ok());
    assert!(matches!(mgr.read(0x1100, &mut buf, IoType::Mmio), Err(Error::NonExist)));
}

#[test]
fn baseless_port_request_rolls_back_earlier_reservations() {
    let mut mgr = new_manager();
    let dev = BusDevice::new("half-baseless".to_string());
    let mut req = vec![
        IoResource::new(Some(0x600), 0x10, IoType::Pio),
        IoResource::new(None, 8, IoType::Pio),
    ];
    let r = mgr.register_device(dev, None, &mut req, None);
    assert!(matches!(r, Err(Error::NonePIOAddress)));

    // the reservation made before the failure was freed again
    let retry = BusDevice::new("whole".to_string());
    let mut req2 = vec![IoResource::new(Some(0x600), 0x10, IoType::Pio)];
    assert!(mgr.register_device(retry, None, &mut req2, None).is_ok());
}
