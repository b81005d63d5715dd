//! The single-keyboard key setup: one keymap reversed, a one-to-one key
//! remapping table, and the step-size settings of the mouse.
pub mod keymap;
pub mod vmouse;
