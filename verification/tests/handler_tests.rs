use bincur::config::cleaned_lines;
use bincur::config::keymap::initialize;
use bincur::config::vmouse::load_default_props;
use bincur::device::keyboards::{KeyEvent, EV_KEY};
use bincur::device::vmouse::{MouseButton, MouseEvent, RelAxis};
use bincur::device::DeviceError;
use bincur::event::handler::{determine_handler, dispatch_queue_fits, Action, Handler, MouseEmulator};
use bincur::event::reactor::{keyboard_event_outcome, watched_node, MonitorEventKind};

const KEYMAP: &str = "leftctrl+q : EXIT\n\
leftalt : LINEAR_MODE\n\
leftalt+leftshift : LOGARITHMIC_MODE\n\
leftalt+c : SCROLL_MODE\n\
i : MOVE_UP\n\
k : MOVE_DOWN\n\
j : MOVE_LEFT\n\
l : MOVE_RIGHT\n\
space : CLICK_LEFT\n\
semicolon : CLICK_RIGHT\n\
x : RESET\n";

const VMOUSE: &str = "grab_linear : FALSE\ngrab_logarithmic : TRUE\ngrab_scroll : TRUE\nstep_size_x : 256\nstep_size_y : 256\nscroll_dist_x : 2\nscroll_dist_y : 2\n";

const LEFTCTRL: u16 = 29;
const Q: u16 = 16;
const LEFTALT: u16 = 56;
const LEFTSHIFT: u16 = 42;
const L: u16 = 38;
const SPACE: u16 = 57;
const A: u16 = 30;
const X: u16 = 45;
const LEFTMETA: u16 = 125;

fn emulator(rewire: &str) -> MouseEmulator {
    let cfg = initialize(&vec![cleaned_lines(KEYMAP)], &vec![cleaned_lines(rewire)]).unwrap();
    assert!(dispatch_queue_fits(&cfg));
    let defaults = load_default_props(&cleaned_lines(VMOUSE)).unwrap();
    MouseEmulator::new(cfg, defaults)
}

fn key(code: u16, value: i32) -> KeyEvent {
    KeyEvent { event_type: EV_KEY, code, value }
}

#[derive(Debug, PartialEq)]
enum Seen {
    Mouse(Vec<MouseEvent>),
    Pass(KeyEvent),
    Exit,
    Reset,
}

fn seen(actions: Vec<Action>) -> Vec<Seen> {
    actions
        .into_iter()
        .map(|a| match a {
            Action::Mouse(v) => Seen::Mouse(v.as_slice().to_vec()),
            Action::PassThrough(e) => Seen::Pass(e),
            Action::Exit => Seen::Exit,
            Action::Reset => Seen::Reset,
        })
        .collect()
}

#[test]
fn unbound_keys_pass_through_when_inactive() {
    let mut emu = emulator("");
    assert_eq!(seen(emu.handle_key_event(0, key(A, 1))), vec![Seen::Pass(key(A, 1))]);
    assert_eq!(seen(emu.handle_key_event(0, key(A, 0))), vec![Seen::Pass(key(A, 0))]);
    // a move key does nothing while no mode is held
    assert_eq!(seen(emu.handle_key_event(0, key(L, 1))), vec![Seen::Pass(key(L, 1))]);
}

#[test]
fn other_event_types_are_ignored() {
    let mut emu = emulator("");
    let syn = KeyEvent { event_type: 0, code: 0, value: 0 };
    assert!(emu.handle_key_event(0, syn).is_empty());
}

#[test]
fn keys_beyond_the_table_pass_through() {
    let mut emu = emulator("");
    assert_eq!(seen(emu.handle_key_event(0, key(300, 1))), vec![Seen::Pass(key(300, 1))]);
}

#[test]
fn hold_linear_mode_move_and_release() {
    let mut emu = emulator("");
    // grab_linear is FALSE: the mode key itself is passed on
    assert_eq!(seen(emu.handle_key_event(0, key(LEFTALT, 1))), vec![Seen::Pass(key(LEFTALT, 1))]);
    assert_eq!(emu.props.mode, 1);
    assert_eq!(
        seen(emu.handle_key_event(0, key(L, 1))),
        vec![Seen::Mouse(vec![MouseEvent::Relative { axis: RelAxis::X, value: 256 }])]
    );
    // key repeat moves again
    assert_eq!(
        seen(emu.handle_key_event(0, key(L, 2))),
        vec![Seen::Mouse(vec![MouseEvent::Relative { axis: RelAxis::X, value: 256 }])]
    );
    // the release of a grabbed press is swallowed too
    assert!(seen(emu.handle_key_event(0, key(L, 0))).is_empty());
    assert_eq!(seen(emu.handle_key_event(0, key(LEFTALT, 0))), vec![Seen::Pass(key(LEFTALT, 0))]);
    assert_eq!(emu.props.mode, 0);
}

#[test]
fn logarithmic_mode_is_grabbed_and_halves() {
    let mut emu = emulator("");
    emu.handle_key_event(0, key(LEFTALT, 1));
    // leftalt+leftshift completes: grab_logarithmic is TRUE so the shift is swallowed
    assert!(seen(emu.handle_key_event(0, key(LEFTSHIFT, 1))).is_empty());
    assert_eq!(emu.props.mode, 2);
    assert_eq!(
        seen(emu.handle_key_event(0, key(L, 1))),
        vec![Seen::Mouse(vec![MouseEvent::Relative { axis: RelAxis::X, value: 128 }])]
    );
    emu.handle_key_event(0, key(L, 0));
    assert_eq!(
        seen(emu.handle_key_event(0, key(L, 1))),
        vec![Seen::Mouse(vec![MouseEvent::Relative { axis: RelAxis::X, value: 64 }])]
    );
    emu.handle_key_event(0, key(L, 0));
    // releasing shift goes back to linear mode with the distances reset
    assert!(seen(emu.handle_key_event(0, key(LEFTSHIFT, 0))).is_empty());
    assert_eq!(emu.props.mode, 1);
    assert_eq!(emu.props.step_size_x, 256);
}

#[test]
fn drag_by_holding_click_while_moving() {
    let mut emu = emulator("");
    emu.handle_key_event(0, key(LEFTALT, 1));
    assert_eq!(
        seen(emu.handle_key_event(0, key(SPACE, 1))),
        vec![Seen::Mouse(vec![MouseEvent::Button { button: MouseButton::Left, value: 1 }])]
    );
    // with the button held, a move press dispatches the longest active behaviors
    let moved = seen(emu.handle_key_event(0, key(L, 1)));
    assert_eq!(
        moved,
        vec![
            Seen::Mouse(vec![MouseEvent::Relative { axis: RelAxis::X, value: 256 }]),
            Seen::Mouse(vec![MouseEvent::Button { button: MouseButton::Left, value: 1 }]),
        ]
    );
    emu.handle_key_event(0, key(L, 0));
    assert_eq!(
        seen(emu.handle_key_event(0, key(SPACE, 0))),
        vec![Seen::Mouse(vec![MouseEvent::Button { button: MouseButton::Left, value: 0 }])]
    );
}

#[test]
fn exit_combination_asks_to_exit() {
    let mut emu = emulator("");
    assert_eq!(seen(emu.handle_key_event(0, key(LEFTCTRL, 1))), vec![Seen::Pass(key(LEFTCTRL, 1))]);
    assert_eq!(seen(emu.handle_key_event(0, key(Q, 1))), vec![Seen::Exit]);
}

#[test]
fn reset_key_asks_to_reset_in_a_mode() {
    let mut emu = emulator("");
    // inactive: RESET is not a mode trigger, so nothing happens
    assert_eq!(seen(emu.handle_key_event(0, key(X, 1))), vec![Seen::Pass(key(X, 1))]);
    emu.handle_key_event(0, key(X, 0));
    emu.handle_key_event(0, key(LEFTALT, 1));
    assert_eq!(seen(emu.handle_key_event(0, key(X, 1))), vec![Seen::Reset]);
}

#[test]
fn batch_stops_at_exit() {
    let mut emu = emulator("");
    let got = seen(emu.emulate_mouse(0, &[key(LEFTCTRL, 1), key(Q, 1), key(A, 1)]));
    assert_eq!(got, vec![Seen::Pass(key(LEFTCTRL, 1)), Seen::Exit]);
}

#[test]
fn batch_handles_every_event() {
    let mut emu = emulator("");
    let got = seen(emu.emulate_mouse(0, &[key(A, 1), key(A, 0), key(LEFTALT, 1)]));
    assert_eq!(got, vec![Seen::Pass(key(A, 1)), Seen::Pass(key(A, 0)), Seen::Pass(key(LEFTALT, 1))]);
    assert_eq!(emu.props.mode, 1);
}

#[test]
fn rewired_key_triggers_the_mode() {
    // leftmeta is rewired to leftalt, which triggers linear mode
    let mut emu = emulator("leftmeta -> leftalt");
    assert_eq!(seen(emu.handle_key_event(0, key(LEFTMETA, 1))), vec![Seen::Pass(key(LEFTALT, 1))]);
    assert_eq!(emu.props.mode, 1);
    assert_eq!(seen(emu.handle_key_event(0, key(LEFTMETA, 0))), vec![Seen::Pass(key(LEFTALT, 0))]);
    assert_eq!(emu.props.mode, 0);
}

#[test]
fn handler_choice() {
    assert_eq!(determine_handler(&vec![]), (Handler::EmulateMouse, true));
    assert_eq!(determine_handler(&vec!["-v".to_string()]), (Handler::PrintVersion, false));
    assert_eq!(determine_handler(&vec!["-i".to_string(), "x".to_string()]), (Handler::Inspect, false));
    assert_eq!(determine_handler(&vec!["--help".to_string()]), (Handler::UnknownOption, false));
}

#[test]
fn monitor_reports() {
    assert!(watched_node("/devices/platform/i8042/serio0/input/input3/event3", Some("/dev/input/event3")));
    assert!(!watched_node("/devices/virtual/input/input20/event20", Some("/dev/input/event20")));
    assert!(!watched_node("/devices/platform/x", None));
    assert!(!watched_node("/devices/platform/x", Some("/dev/input/mouse0")));
    assert!(matches!(keyboard_event_outcome(MonitorEventKind::Add), Some(DeviceError::Connected)));
    assert!(matches!(keyboard_event_outcome(MonitorEventKind::Remove), Some(DeviceError::Disconnected)));
    assert!(matches!(keyboard_event_outcome(MonitorEventKind::Change), Some(DeviceError::ResetRequested)));
    assert!(keyboard_event_outcome(MonitorEventKind::Other).is_none());
}

#[test]
fn two_direction_keys_move_diagonally() {
    let mut emu = emulator("");
    const I: u16 = 23;
    emu.handle_key_event(0, key(LEFTALT, 1));
    assert_eq!(
        seen(emu.handle_key_event(0, key(I, 1))),
        vec![Seen::Mouse(vec![MouseEvent::Relative { axis: RelAxis::Y, value: -256 }])]
    );
    // with up still held, right joins it: both combinations are equally long
    assert_eq!(
        seen(emu.handle_key_event(0, key(L, 1))),
        vec![
            Seen::Mouse(vec![MouseEvent::Relative { axis: RelAxis::Y, value: -256 }]),
            Seen::Mouse(vec![MouseEvent::Relative { axis: RelAxis::X, value: 256 }]),
        ]
    );
}

fn identity_remap() -> Vec<u16> {
    bincur::setup::keymap::load_rewire_map(&Vec::new()).unwrap()
}

#[test]
fn shared_keymap_dispatches_longest_beside_a_mode_trigger() {
    let mut emu = emulator("");
    let remap = identity_remap();
    emu.handle_events(&remap, &[key(LEFTALT, 1)]);
    assert_eq!(emu.props.mode, 1);
    assert_eq!(
        seen(emu.handle_events(&remap, &[key(L, 1)])),
        vec![Seen::Mouse(vec![MouseEvent::Relative { axis: RelAxis::X, value: 256 }])]
    );
    // completing the logarithmic trigger also moves the held direction, at the new step
    assert_eq!(
        seen(emu.handle_events(&remap, &[key(LEFTSHIFT, 1)])),
        vec![Seen::Mouse(vec![MouseEvent::Relative { axis: RelAxis::X, value: 128 }])]
    );
    assert_eq!(emu.props.mode, 2);
}

#[test]
fn shared_keymap_remaps_one_to_one() {
    let mut emu = emulator("");
    let remap = bincur::setup::keymap::load_rewire_map(&cleaned_lines("l -> j\n")).unwrap();
    emu.handle_remapped_event(&remap, key(LEFTALT, 1));
    assert_eq!(
        seen(emu.handle_remapped_event(&remap, key(L, 1))),
        vec![Seen::Mouse(vec![MouseEvent::Relative { axis: RelAxis::X, value: -256 }])]
    );
    // while the move is held, any press repeats it
    assert_eq!(
        seen(emu.handle_remapped_event(&remap, key(A, 1))),
        vec![Seen::Mouse(vec![MouseEvent::Relative { axis: RelAxis::X, value: -256 }])]
    );
    assert!(seen(emu.handle_remapped_event(&remap, key(L, 0))).is_empty());
    // the release of that grabbed press is swallowed too
    assert!(seen(emu.handle_remapped_event(&remap, key(A, 0))).is_empty());
    // once the move is released, an unbound key passes through
    assert_eq!(seen(emu.handle_remapped_event(&remap, key(A, 1))), vec![Seen::Pass(key(A, 1))]);
}

#[test]
fn shared_keymap_batch_stops_at_exit() {
    let mut emu = emulator("");
    let remap = identity_remap();
    let got = seen(emu.handle_events(&remap, &[key(LEFTCTRL, 1), key(Q, 1), key(A, 1)]));
    assert_eq!(got, vec![Seen::Pass(key(LEFTCTRL, 1)), Seen::Exit]);
}
