# bincur

Keyboard-driven mouse emulation for Linux (evdev / uinput): hold a trigger
key and other keys move the cursor, scroll, and click.

- `src/` is the verified library: reading the configuration files
  (`keymap.conf`, `rewire.conf`, `vmouse.conf`), the per-keyboard key and
  rewire tables, press and grab bookkeeping, the mouse modes and their
  motion, and the state machines that turn one key event into the actions
  to perform (per-keyboard keymaps, or one shared keymap with one-to-one
  key remapping). `src/outside.rs` holds the few calls into code that is not
  verified (std's upper-casing, evdev's key-name table, arrayvec).
- `app/` is the program around it: device discovery, the event loop over
  udev and mio, the virtual devices, and file reading.
- `tests/` runs the library on concrete inputs.
