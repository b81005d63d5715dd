//! Keyboard press bookkeeping, the virtual mouse's behaviors, and the
//! errors that make the event loop start over.
use vstd::prelude::*;

pub mod keyboards;
pub mod vmouse;

verus! {

#[verifier::external_type_specification]
#[verifier::external_body]
pub struct ExIoError(std::io::Error);

/// Why the event loop stops and rebuilds its device list.
#[derive(Debug)]
pub enum DeviceError {
    /// A keyboard was unplugged.
    Disconnected,
    /// A keyboard was plugged in.
    Connected,
    /// A device changed, a keyboard failed, or a `RESET` key was pressed.
    ResetRequested,
    /// Reading a device failed.
    Io(std::io::Error),
}

impl From<std::io::Error> for DeviceError {
    /// A failed read becomes an `Io` error holding it.
    fn from(error: std::io::Error) -> (r: DeviceError) {
        DeviceError::Io(error)
    }
}

impl vstd::std_specs::convert::FromSpecImpl<std::io::Error> for DeviceError {
    open spec fn obeys_from_spec() -> bool {
        true
    }

    open spec fn from_spec(error: std::io::Error) -> DeviceError {
        DeviceError::Io(error)
    }
}

} // verus!
