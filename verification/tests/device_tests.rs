use bincur::device::keyboards::{names, scan, DeviceInfo};
use bincur::config::cleaned_lines;
use bincur::config::keymap::{initialize, KeyConfig};
use bincur::config::vmouse::{load_default_props, Props};
use bincur::device::keyboards::{is_own_device, KeyEvent, PressState, EV_KEY};
use bincur::device::vmouse::{
    clear_activated_set, get_mode, is_active, longest_actives, mark_active, mark_inactive,
    new_click_event, new_move_event, ActiveSet, Behavior, Direction, Dispatched, MouseButton,
    MouseEvent, RelAxis,
};
use bincur::device::DeviceError;

fn config(keymap: &str, rewire: &str) -> KeyConfig {
    initialize(&vec![cleaned_lines(keymap)], &vec![cleaned_lines(rewire)]).unwrap()
}

fn rel(axis: RelAxis, value: i32) -> MouseEvent {
    MouseEvent::Relative { axis, value }
}

fn emitted(r: Result<Dispatched, DeviceError>) -> Vec<MouseEvent> {
    match r {
        Ok(Dispatched::Emit(v)) => v.as_slice().to_vec(),
        _ => panic!("expected emitted events"),
    }
}

fn grabbed(r: Result<Dispatched, DeviceError>) -> bool {
    match r {
        Ok(Dispatched::Grab(g)) => g,
        _ => panic!("expected a grab decision"),
    }
}

fn readme_defaults() -> Props {
    load_default_props(&cleaned_lines(
        "grab_linear : FALSE\ngrab_logarithmic : TRUE\ngrab_scroll : TRUE\nstep_size_x : 256\nstep_size_y : 256\nscroll_dist_x : 2\nscroll_dist_y : 2\n",
    ))
    .unwrap()
}

#[test]
fn press_state_records_keys() {
    let mut p = PressState::new();
    assert!(p.physically_all_pressed(&[], None));
    assert!(!p.physically_all_pressed(&[30], None));
    p.update_physical_presss_state(30, 1);
    assert!(p.physically_all_pressed(&[30], None));
    assert!(!p.logically_all_pressed(&[30], None));
    p.update_physical_presss_state(30, 2);
    assert!(p.physically_all_pressed(&[30], None));
    p.update_physical_presss_state(30, 0);
    assert!(!p.physically_all_pressed(&[30], None));
    // keys beyond the table are ignored and never held
    p.update_physical_presss_state(300, 1);
    assert!(!p.physically_all_pressed(&[300], None));
    assert!(p.physically_all_pressed(&[300], Some(300)));
}

#[test]
fn press_state_exclude() {
    let mut p = PressState::new();
    p.update_logical_press_state(56, 1);
    assert!(p.logically_all_pressed(&[56, 42], Some(42)));
    assert!(!p.logically_all_pressed(&[56, 42], None));
    p.update_logical_press_state(42, 1);
    assert!(p.logically_all_pressed(&[56, 42], None));
}

#[test]
fn release_follows_press_grab() {
    let mut p = PressState::new();
    let mut g = true;
    p.update_logical_press_state(57, 1);
    p.update_grab_state(57, 1, &mut g);
    assert!(g);
    let mut g2 = false;
    p.update_logical_press_state(57, 0);
    p.update_grab_state(57, 0, &mut g2);
    assert!(g2);
    // the decision is forgotten after the release
    let mut g3 = false;
    p.update_grab_state(57, 0, &mut g3);
    assert!(!g3);
    // beyond the table nothing changes
    let mut g4 = true;
    p.update_grab_state(400, 0, &mut g4);
    assert!(g4);
}

#[test]
fn clear_press_state_forgets_everything() {
    let mut p = PressState::new();
    p.update_physical_presss_state(1, 1);
    p.update_logical_press_state(2, 1);
    let mut g = true;
    p.update_grab_state(2, 1, &mut g);
    p.clear_press_state();
    assert!(!p.physically_all_pressed(&[1], None));
    assert!(!p.logically_all_pressed(&[2], None));
    let mut g2 = false;
    p.update_grab_state(2, 0, &mut g2);
    assert!(!g2);
}

#[test]
fn active_set_behaves_as_a_set() {
    let mut a = ActiveSet::new();
    assert!(!is_active(&a, &Behavior::MoveUp));
    assert!(mark_active(&mut a, &Behavior::MoveUp));
    assert!(!mark_active(&mut a, &Behavior::MoveUp));
    assert!(is_active(&a, &Behavior::MoveUp));
    assert!(mark_inactive(&mut a, &Behavior::MoveUp));
    assert!(!mark_inactive(&mut a, &Behavior::MoveUp));
    mark_active(&mut a, &Behavior::Exit);
    mark_active(&mut a, &Behavior::KeyUp);
    clear_activated_set(&mut a);
    assert!(!is_active(&a, &Behavior::Exit));
    assert!(!is_active(&a, &Behavior::KeyUp));
}

#[test]
fn inverse_behaviors() {
    assert_eq!(Behavior::ClickLeft.inverse(), Some(Behavior::ReleaseLeft));
    assert_eq!(Behavior::ClickRight.inverse(), Some(Behavior::ReleaseRight));
    assert_eq!(Behavior::LinearModeOn.inverse(), Some(Behavior::LinearModeOff));
    assert_eq!(Behavior::LogarithmicModeOn.inverse(), Some(Behavior::LogarithmicModeOff));
    assert_eq!(Behavior::ScrollModeOn.inverse(), Some(Behavior::ScrollModeOff));
    assert_eq!(Behavior::MoveUp.inverse(), Some(Behavior::KeyUp));
    assert_eq!(Behavior::Exit.inverse(), Some(Behavior::KeyUp));
}

#[test]
fn longest_combination_wins() {
    let cfg = config("a:move_up\na+b:move_down\na+c:move_left\nx+y+z:exit\nq:linear_mode", "");
    let mut a = ActiveSet::new();
    mark_active(&mut a, &Behavior::MoveUp);
    mark_active(&mut a, &Behavior::MoveDown);
    mark_active(&mut a, &Behavior::MoveLeft);
    mark_active(&mut a, &Behavior::Exit);
    mark_active(&mut a, &Behavior::LinearModeOn);
    let got = longest_actives(&a, &cfg, 0);
    assert_eq!(got.as_slice(), &[Behavior::MoveDown, Behavior::MoveLeft]);
    let empty = longest_actives(&ActiveSet::new(), &cfg, 0);
    assert!(empty.is_empty());
}

#[test]
fn unbound_active_behaviors_count_as_length_zero() {
    let cfg = config("", "");
    let mut a = ActiveSet::new();
    mark_active(&mut a, &Behavior::KeyUp);
    mark_active(&mut a, &Behavior::Reset);
    let got = longest_actives(&a, &cfg, 0);
    assert_eq!(got.as_slice(), &[Behavior::Reset, Behavior::KeyUp]);
}

#[test]
fn mode_priority_scroll_over_logarithmic_over_linear() {
    let defaults = readme_defaults();
    let a = ActiveSet::new();
    let mut p = defaults;
    assert!(!grabbed(Behavior::LinearModeOn.dispatch(&mut p, &a, &defaults)));
    assert_eq!(get_mode(&p), 1);
    assert!(grabbed(Behavior::LogarithmicModeOn.dispatch(&mut p, &a, &defaults)));
    assert_eq!(p.mode, 2);
    assert!(!grabbed(Behavior::LinearModeOn.dispatch(&mut p, &a, &defaults)));
    assert_eq!(p.mode, 2);
    assert!(grabbed(Behavior::ScrollModeOn.dispatch(&mut p, &a, &defaults)));
    assert_eq!(p.mode, 3);
    Behavior::LogarithmicModeOn.dispatch(&mut p, &a, &defaults).ok();
    assert_eq!(p.mode, 3);
}

#[test]
fn releasing_a_mode_falls_back_to_the_held_mode() {
    let defaults = readme_defaults();
    let mut a = ActiveSet::new();
    mark_active(&mut a, &Behavior::LinearModeOn);
    mark_active(&mut a, &Behavior::LogarithmicModeOn);
    let mut p = defaults;
    p.mode = 3;
    Behavior::ScrollModeOff.dispatch(&mut p, &a, &defaults).ok();
    assert_eq!(p.mode, 2);
    mark_inactive(&mut a, &Behavior::LogarithmicModeOn);
    p.step_size_x = 3;
    Behavior::LogarithmicModeOff.dispatch(&mut p, &a, &defaults).ok();
    assert_eq!(p.mode, 1);
    assert_eq!(p.step_size_x, 256);
    mark_inactive(&mut a, &Behavior::LinearModeOn);
    Behavior::LinearModeOff.dispatch(&mut p, &a, &defaults).ok();
    assert_eq!(p.mode, 0);
    // releasing a mode that is not the current one changes nothing
    p.mode = 2;
    Behavior::LinearModeOff.dispatch(&mut p, &a, &defaults).ok();
    assert_eq!(p.mode, 2);
}

#[test]
fn scroll_release_returns_to_linear_with_reset_distances() {
    let defaults = readme_defaults();
    let mut a = ActiveSet::new();
    mark_active(&mut a, &Behavior::LinearModeOn);
    let mut p = defaults;
    p.mode = 3;
    p.step_size_y = 1;
    Behavior::ScrollModeOff.dispatch(&mut p, &a, &defaults).ok();
    assert_eq!(p.mode, 1);
    assert_eq!(p.step_size_y, 256);
}

#[test]
fn linear_moves_are_constant() {
    let defaults = readme_defaults();
    let a = ActiveSet::new();
    let mut p = defaults;
    p.mode = 1;
    for _ in 0..3 {
        assert_eq!(emitted(Behavior::MoveRight.dispatch(&mut p, &a, &defaults)), vec![rel(RelAxis::X, 256)]);
    }
    assert_eq!(emitted(Behavior::MoveUp.dispatch(&mut p, &a, &defaults)), vec![rel(RelAxis::Y, -256)]);
    assert_eq!(emitted(Behavior::MoveLeft.dispatch(&mut p, &a, &defaults)), vec![rel(RelAxis::X, -256)]);
    assert_eq!(emitted(Behavior::MoveDown.dispatch(&mut p, &a, &defaults)), vec![rel(RelAxis::Y, 256)]);
    assert_eq!(p, { let mut q = defaults; q.mode = 1; q });
}

#[test]
fn logarithmic_moves_halve_128_64_32() {
    let defaults = readme_defaults();
    let a = ActiveSet::new();
    let mut p = defaults;
    p.mode = 2;
    let mut got = Vec::new();
    for _ in 0..10 {
        let e = emitted(Behavior::MoveRight.dispatch(&mut p, &a, &defaults));
        match e[0] {
            MouseEvent::Relative { value, .. } => got.push(value),
            _ => panic!(),
        }
    }
    assert_eq!(got, vec![128, 64, 32, 16, 8, 4, 2, 1, 1, 1]);
    // the other axis keeps its own distance
    assert_eq!(emitted(Behavior::MoveUp.dispatch(&mut p, &a, &defaults)), vec![rel(RelAxis::Y, -128)]);
}

#[test]
fn logarithmic_halving_respects_the_minimum() {
    let a = ActiveSet::new();
    let mut p = Props::new();
    p.mode = 2;
    p.step_size_x = 10;
    p.min_step_size_x = 4;
    assert_eq!(new_move_event(&mut p, Direction::Right, &a).as_slice(), &[rel(RelAxis::X, 5)]);
    assert_eq!(new_move_event(&mut p, Direction::Right, &a).as_slice(), &[rel(RelAxis::X, 4)]);
    assert_eq!(new_move_event(&mut p, Direction::Left, &a).as_slice(), &[rel(RelAxis::X, -4)]);
}

#[test]
fn extreme_steps_wrap_as_32_bit_arithmetic() {
    let a = ActiveSet::new();
    let mut p = Props::new();
    p.mode = 1;
    p.step_size_x = i32::MIN;
    assert_eq!(new_move_event(&mut p, Direction::Left, &a).as_slice(), &[rel(RelAxis::X, i32::MIN)]);
    p.mode = 2;
    p.step_size_x = i32::MAX;
    p.min_step_size_x = i32::MIN;
    assert_eq!(new_move_event(&mut p, Direction::Right, &a).as_slice(), &[rel(RelAxis::X, -0x4000_0000)]);
}

#[test]
fn scroll_reports_notches_of_120() {
    let a = ActiveSet::new();
    let mut p = Props::new();
    p.mode = 3;
    p.scroll_dist_y = 50;
    let e1 = new_move_event(&mut p, Direction::Up, &a);
    assert_eq!(e1.as_slice(), &[rel(RelAxis::WheelHiRes, 50), rel(RelAxis::Wheel, 0)]);
    let e2 = new_move_event(&mut p, Direction::Up, &a);
    assert_eq!(e2.as_slice(), &[rel(RelAxis::WheelHiRes, 50), rel(RelAxis::Wheel, 0)]);
    let e3 = new_move_event(&mut p, Direction::Up, &a);
    assert_eq!(e3.as_slice(), &[rel(RelAxis::WheelHiRes, 50), rel(RelAxis::Wheel, 1)]);
    assert_eq!(p.scroll_accum_y, 30);
    let e4 = new_move_event(&mut p, Direction::Down, &a);
    assert_eq!(e4.as_slice(), &[rel(RelAxis::WheelHiRes, -50), rel(RelAxis::Wheel, 0)]);
    assert_eq!(p.scroll_accum_y, -20);
    p.scroll_dist_x = 300;
    let e5 = new_move_event(&mut p, Direction::Left, &a);
    assert_eq!(e5.as_slice(), &[rel(RelAxis::HWheelHiRes, -300), rel(RelAxis::HWheel, -2)]);
    assert_eq!(p.scroll_accum_x, -60);
}

#[test]
fn scroll_halves_while_logarithmic_is_held() {
    let mut a = ActiveSet::new();
    mark_active(&mut a, &Behavior::LogarithmicModeOn);
    let mut p = Props::new();
    p.mode = 3;
    p.scroll_dist_x = 240;
    let e = new_move_event(&mut p, Direction::Right, &a);
    assert_eq!(e.as_slice(), &[rel(RelAxis::HWheelHiRes, 120), rel(RelAxis::HWheel, 1)]);
    assert_eq!(p.scroll_dist_x, 120);
    assert_eq!(p.scroll_accum_x, 0);
}

#[test]
fn clicks_work_in_every_mode_but_inactive() {
    let mut p = Props::new();
    assert!(new_click_event(&p, Direction::Left, 1).is_empty());
    for m in 1..=3u8 {
        p.mode = m;
        assert_eq!(
            new_click_event(&p, Direction::Left, 1).as_slice(),
            &[MouseEvent::Button { button: MouseButton::Left, value: 1 }]
        );
        assert_eq!(
            new_click_event(&p, Direction::Right, 0).as_slice(),
            &[MouseEvent::Button { button: MouseButton::Right, value: 0 }]
        );
        assert!(new_click_event(&p, Direction::Up, 1).is_empty());
    }
}

#[test]
fn inactive_mode_emits_no_motion() {
    let a = ActiveSet::new();
    let mut p = Props::new();
    p.step_size_x = 5;
    assert!(new_move_event(&mut p, Direction::Right, &a).is_empty());
    assert_eq!(p, { let mut q = Props::new(); q.step_size_x = 5; q });
}

#[test]
fn exit_reset_and_keyup() {
    let d = Props::new();
    let a = ActiveSet::new();
    let mut p = Props::new();
    assert!(matches!(Behavior::Exit.dispatch(&mut p, &a, &d), Ok(Dispatched::Exit)));
    assert!(matches!(Behavior::Reset.dispatch(&mut p, &a, &d), Err(DeviceError::ResetRequested)));
    assert!(grabbed(Behavior::KeyUp.dispatch(&mut p, &a, &d)));
}

#[test]
fn own_devices_are_recognised() {
    assert!(is_own_device(Some("bincur")));
    assert!(is_own_device(Some("bincur-vkeyboard")));
    assert!(!is_own_device(Some("AT keyboard")));
    assert!(!is_own_device(Some("bincu")));
    assert!(!is_own_device(None));
}

#[test]
fn rewire_swaps_keys() {
    let cfg = config("", "leftalt -> leftmeta\nleftmeta -> leftalt");
    let mut press = PressState::new();
    press.update_physical_presss_state(56, 1);
    let ev = KeyEvent { event_type: EV_KEY, code: 56, value: 1 };
    assert_eq!(cfg.rewire(ev, 0, &press), KeyEvent { event_type: EV_KEY, code: 125, value: 1 });
    let ev = KeyEvent { event_type: EV_KEY, code: 125, value: 0 };
    assert_eq!(cfg.rewire(ev, 0, &press), KeyEvent { event_type: EV_KEY, code: 56, value: 0 });
    let ev = KeyEvent { event_type: EV_KEY, code: 30, value: 1 };
    assert_eq!(cfg.rewire(ev, 0, &press), ev);
    // an unknown keyboard leaves events alone
    assert_eq!(cfg.rewire(KeyEvent { event_type: EV_KEY, code: 56, value: 1 }, 3, &press).code, 56);
}

#[test]
fn rewire_to_the_highest_key() {
    let cfg = config("", "a -> micmute");
    let press = PressState::new();
    let ev = KeyEvent { event_type: EV_KEY, code: 30, value: 1 };
    assert_eq!(cfg.rewire(ev, 0, &press).code, 248);
}

#[test]
fn rewire_combination_needs_the_other_keys_held() {
    let cfg = config("", "leftctrl+a -> f18");
    let mut press = PressState::new();
    let ev = KeyEvent { event_type: EV_KEY, code: 30, value: 1 };
    press.update_physical_presss_state(30, 1);
    assert_eq!(cfg.rewire(ev, 0, &press).code, 30);
    press.update_physical_presss_state(29, 1);
    assert_eq!(cfg.rewire(ev, 0, &press).code, 188);
}

fn found(name: Option<&str>, keyboard: bool) -> DeviceInfo {
    DeviceInfo { name: name.map(|n| n.to_string()), keyboard }
}

#[test]
fn scan_keeps_real_keyboards_in_order() {
    let devices = vec![
        found(Some("AT Translated Set 2 keyboard"), true),
        found(Some("bincur-vkeyboard"), true),
        found(Some("Logitech USB Receiver Mouse"), false),
        found(None, true),
        found(Some("bincur"), false),
        found(Some("Bincur keyboard"), true),
    ];
    assert_eq!(scan(&devices), vec![0, 3, 5]);
    assert!(scan(&Vec::new()).is_empty());
}

#[test]
fn names_follow_the_keyboards() {
    let devices = vec![found(Some("Keychron K2"), true), found(None, true)];
    assert_eq!(names(&devices), vec![Some("Keychron K2".to_string()), None]);
}

#[test]
fn active_set_reads_back_marks() {
    let mut active = ActiveSet::new();
    assert!(mark_active(&mut active, &Behavior::MoveUp));
    assert!(is_active(&active, &Behavior::MoveUp));
    assert!(!is_active(&active, &Behavior::MoveDown));
    assert!(!mark_active(&mut active, &Behavior::MoveUp));
    assert!(mark_inactive(&mut active, &Behavior::MoveUp));
    assert!(!is_active(&active, &Behavior::MoveUp));
    assert!(!mark_inactive(&mut active, &Behavior::MoveUp));
    assert!(mark_active(&mut active, &Behavior::MoveUp));
}
