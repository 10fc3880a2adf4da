use vstd::prelude::*;

verus! {

/// Connection status of a recognized controller.
#[derive(Clone, Copy, Debug, PartialEq, Eq, Structural)]
pub enum ControllerStatus {
    Connecting,
    Connected,
    Disconnected,
}

/// Failure kinds of the transport and of address-targeted operations.
#[derive(Clone, Copy, Debug, PartialEq, Eq, Structural)]
pub enum BluetoothError {
    /// The transport connection cannot be established.
    TransportUnavailable,
    /// A request to the transport failed.
    TransportCallFailed,
    /// No device of the current snapshot has the requested address.
    DeviceNotFound,
    /// The transport answered with data that could not be decoded.
    DecodeError,
}

/// A device as the transport enumerates it.
#[derive(Clone, Debug)]
pub struct DeviceInfo {
    pub address: String,
    pub name: String,
    pub paired: bool,
    pub trusted: bool,
    pub connected: bool,
}

/// One recognized controller as the user sees it.
#[derive(Clone, Debug)]
pub struct BluetoothController {
    pub address: String,
    pub name: String,
    pub status: ControllerStatus,
    pub paired: bool,
    pub trusted: bool,
}

/// The mathematical value of a controller record.
pub struct ControllerView {
    pub address: Seq<char>,
    pub name: Seq<char>,
    pub status: ControllerStatus,
    pub paired: bool,
    pub trusted: bool,
}

impl View for BluetoothController {
    type V = ControllerView;

    open spec fn view(&self) -> ControllerView {
        ControllerView {
            address: self.address@,
            name: self.name@,
            status: self.status,
            paired: self.paired,
            trusted: self.trusted,
        }
    }
}

impl BluetoothController {
    /// A copy of the record with the same contents.
    pub fn duplicate(&self) -> (r: BluetoothController)
        ensures
            r@ == self@,
    {
        BluetoothController {
            address: self.address.clone(),
            name: self.name.clone(),
            status: self.status,
            paired: self.paired,
            trusted: self.trusted,
        }
    }
}

/// The status shown for a device: the transport's link state alone decides it.
pub open spec fn status_of(connected: bool, paired: bool) -> ControllerStatus {
    if connected {
        ControllerStatus::Connected
    } else {
        ControllerStatus::Disconnected
    }
}

/// Derives the status of a controller from the transport's flags.
pub fn controller_status(connected: bool, paired: bool) -> (r: ControllerStatus)
    ensures
        r == status_of(connected, paired),
{
    if connected {
        ControllerStatus::Connected
    } else if paired {
        ControllerStatus::Disconnected
    } else {
        ControllerStatus::Disconnected
    }
}

/// The controller record that a device of the snapshot becomes.
pub open spec fn record_of(d: DeviceInfo) -> ControllerView {
    ControllerView {
        address: d.address@,
        name: d.name@,
        status: status_of(d.connected, d.paired),
        paired: d.paired,
        trusted: d.trusted,
    }
}

impl DeviceInfo {
    /// Builds the controller record for this device.
    pub fn to_controller(&self) -> (r: BluetoothController)
        ensures
            r@ == record_of(*self),
    {
        BluetoothController {
            address: self.address.clone(),
            name: self.name.clone(),
            status: controller_status(self.connected, self.paired),
            paired: self.paired,
            trusted: self.trusted,
        }
    }
}

} // verus!
