//! Turning key events into mouse actions, and deciding when the device
//! list must be rebuilt.
pub mod handler;
pub mod reactor;
pub mod single;
