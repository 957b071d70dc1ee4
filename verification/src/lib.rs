//! Device routing and resource allocation for a virtual-machine monitor's
//! device model: address-range bookkeeping, transactional resource
//! registration with rollback, and the legacy two-register configuration
//! protocol.

pub mod allocator;
pub mod device;
pub mod device_manager;
pub mod dummy_device;
pub mod pci_bus;
pub mod pci_configuration;
pub mod pci_device;
pub mod system_allocate;
