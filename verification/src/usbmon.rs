//! The events that usbmon reports.

use vstd::prelude::*;

verus! {

/// How an endpoint moves its data.
#[derive(Debug, Clone, Copy, PartialEq, Eq, Structural)]
pub enum TransferType {
    Control,
    Isochronous,
    Bulk,
    Interrupt,
}

impl TransferType {
    /// The name that reports and filters use.
    pub open spec fn name(self) -> Seq<char> {
        match self {
            TransferType::Control => "control"@,
            TransferType::Isochronous => "iso"@,
            TransferType::Bulk => "bulk"@,
            TransferType::Interrupt => "interrupt"@,
        }
    }

    /// The name that reports and filters use.
    pub fn label(self) -> (r: &'static str)
        ensures
            r@ == self.name(),
    {
        match self {
            TransferType::Control => "control",
            TransferType::Isochronous => "iso",
            TransferType::Bulk => "bulk",
            TransferType::Interrupt => "interrupt",
        }
    }
}

/// Which stage of a transfer an event reports.
#[derive(Debug, Clone, Copy, PartialEq, Eq, Structural)]
pub enum UrbType {
    Submission,
    Callback,
    Error,
}

/// One event.
#[derive(Debug, Clone, Copy, PartialEq, Eq, Structural)]
pub struct UsbPacket {
    pub urb_type: UrbType,
    pub bus_id: u8,
    pub device_id: u8,
    pub endpoint: u8,
    /// true = IN (device to host); false = OUT.
    pub direction: bool,
    pub transfer_type: Option<TransferType>,
    pub data_length: u32,
}

/// What startup finds of usbmon.
#[derive(Debug)]
pub struct UsbmonStatus {
    pub module_loaded: bool,
    pub debugfs_mounted: bool,
    pub usbmon_available: bool,
    pub binary_available: bool,
    pub text_available: bool,
    pub permission_denied: bool,
    pub available_buses: Vec<u8>,
}

} // verus!
