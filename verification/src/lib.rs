//! Keyboard-driven mouse emulation: configuration readers, key press
//! bookkeeping, and the state machine that turns key events into virtual
//! mouse events.
use vstd::prelude::*;

pub mod text;
pub mod outside;
pub mod config;
pub mod device;
pub mod event;
pub mod setup;

verus! {
} // verus!
