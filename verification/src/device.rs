//! Core device-facing data model: resource requests, interrupt requests and
//! registration descriptors.

use vstd::prelude::*;

verus! {

/// IO resource type.
#[derive(Debug, Copy, Clone, PartialEq, Eq, Structural)]
pub enum IoType {
    /// Port I/O resource.
    Pio,
    /// Memory I/O resource.
    Mmio,
    /// Non-exit physically backed mmap IO.
    PhysicalMmio,
}

/// Device resource information.
#[derive(Debug, Copy, Clone, PartialEq, Eq, Structural)]
pub struct IoResource {
    /// Resource address.
    pub addr: Option<u64>,
    /// Resource size.
    pub size: u64,
    /// Resource type.
    pub res_type: IoType,
}

impl IoResource {
    /// Build a resource request.
    pub fn new(addr: Option<u64>, size: u64, res_type: IoType) -> (r: IoResource)
        ensures
            r == (IoResource { addr, size, res_type }),
    {
        IoResource { addr, size, res_type }
    }
}

/// Legacy interrupt resource: `None` asks for any free line, `Some(line)`
/// asks for one specific line.
pub struct IrqResource(pub Option<u32>);

/// Capability every emulated device offers to the device manager.
///
/// The manager owns one value per registered device and serializes all
/// access to it through its own exclusive borrow, so a device method is
/// never entered by two callers at once.
pub trait Device {
    /// Get the device name.
    fn name(&self) -> String;

    /// Read from the guest address `addr` into `data`.
    fn read(&mut self, addr: u64, data: &mut Vec<u8>, io_type: IoType);

    /// Write `data` to the guest address `addr`.
    fn write(&mut self, addr: u64, data: &Vec<u8>, io_type: IoType);

    /// Set the allocated resource back to the device.
    ///
    /// Called by `DeviceManager::register_device` exactly once, after
    /// allocation succeeds and before the descriptor is recorded, so the
    /// device can capture its final addresses.
    fn set_resources(&mut self, res: &Vec<IoResource>, irq: Option<IrqResource>);
}

/// Registry record binding a device's name to its granted resources and bus
/// topology.
pub struct DeviceDescriptor<D> {
    /// Device name.
    pub name: String,
    /// The described device.
    pub device: D,
    /// Name of the parent bus of this device, if any; a lookup reference
    /// only, never an owning link.
    pub parent_bus: Option<String>,
    /// Device resource set.
    pub resource: Vec<IoResource>,
}

impl<D> DeviceDescriptor<D> {
    /// Create a descriptor for one device.
    pub fn new(
        name: String,
        dev: D,
        parent_bus: Option<String>,
        resource: Vec<IoResource>,
    ) -> (r: Self)
        ensures
            r.name == name,
            r.device == dev,
            r.parent_bus == parent_bus,
            r.resource == resource,
    {
        DeviceDescriptor { name, device: dev, parent_bus, resource }
    }
}

} // verus!
