//! Deciding, from the device monitor's reports, when the event loop must
//! rebuild its list of keyboards.
use vstd::prelude::*;
use crate::device::DeviceError;
use crate::text::{contains_text, occurs_at, starts_with};

verus! {

/// What the device monitor reports about a device.
#[derive(Clone, Copy, PartialEq, Eq, Debug, Structural)]
pub enum MonitorEventKind {
    Add,
    Remove,
    Change,
    Other,
}

/// A monitored device is a real input event node: its system path is not
/// under `/virtual/input`, and it has a device node under
/// `/dev/input/event`.
pub open spec fn watched_node_spec(syspath: Seq<char>, devnode: Option<Seq<char>>) -> bool {
    &&& !(exists|i: int| occurs_at(syspath, "/virtual/input"@, i))
    &&& devnode matches Some(n) && "/dev/input/event"@.len() <= n.len() && n.subrange(
        0,
        "/dev/input/event"@.len() as int,
    ) == "/dev/input/event"@
}

/// Whether a monitored device is a real input event node (see
/// `watched_node_spec`); only such devices are looked at further.
pub fn watched_node(syspath: &str, devnode: Option<&str>) -> (r: bool)
    ensures
        r == watched_node_spec(syspath@, match devnode {
            Some(n) => Some(n@),
            None => None,
        }),
{
    if contains_text(syspath, "/virtual/input") {
        return false;
    }
    match devnode {
        Some(node) => starts_with(node, "/dev/input/event"),
        None => false,
    }
}

/// What a report about a keyboard means for the event loop: a keyboard was
/// connected, disconnected or changed; other reports change nothing.
pub fn keyboard_event_outcome(kind: MonitorEventKind) -> (r: Option<DeviceError>)
    ensures
        kind == MonitorEventKind::Add ==> r matches Some(DeviceError::Connected),
        kind == MonitorEventKind::Remove ==> r matches Some(DeviceError::Disconnected),
        kind == MonitorEventKind::Change ==> r matches Some(DeviceError::ResetRequested),
        kind == MonitorEventKind::Other ==> r is None,
{
    match kind {
        MonitorEventKind::Add => Some(DeviceError::Connected),
        MonitorEventKind::Remove => Some(DeviceError::Disconnected),
        MonitorEventKind::Change => Some(DeviceError::ResetRequested),
        MonitorEventKind::Other => None,
    }
}

} // verus!
