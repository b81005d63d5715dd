use bincur::config::{cleaned_lines, ErrorKind};
use bincur::device::keyboards::KeyEvent;
use bincur::device::vmouse::Behavior;
use bincur::device::DeviceError;
use bincur::setup::keymap::{load_rewire_map, load_rvs, rewire};
use bincur::setup::vmouse::{load_default, parse_u16, Config};

const ESC: u16 = 1;
const CAPSLOCK: u16 = 58;
const MICMUTE: u16 = 248;

fn empty_table() -> Vec<Vec<usize>> {
    (0..17).map(|_| Vec::new()).collect()
}

#[test]
fn load_rvs_lists_behaviors_per_key() {
    let mut table = empty_table();
    table[Behavior::LinearModeOn.index()] = vec![56];
    table[Behavior::ScrollModeOn.index()] = vec![56, 46];
    table[Behavior::MoveUp.index()] = vec![23, 23];
    table[Behavior::Exit.index()] = vec![300];
    let rvs = load_rvs(&table);
    assert_eq!(rvs.len(), 249);
    assert_eq!(rvs[56], vec![Behavior::LinearModeOn, Behavior::ScrollModeOn]);
    assert_eq!(rvs[46], vec![Behavior::ScrollModeOn]);
    assert_eq!(rvs[23], vec![Behavior::MoveUp, Behavior::MoveUp]);
    assert!(rvs[0].is_empty());
    assert!(rvs.iter().all(|l| !l.contains(&Behavior::Exit)));
}

#[test]
fn rewire_map_starts_as_identity() {
    let table = load_rewire_map(&Vec::new()).unwrap();
    assert_eq!(table.len(), 249);
    for k in 0..=248 {
        assert_eq!(table[k], k as u16);
    }
}

#[test]
fn rewire_map_applies_lines_in_order() {
    let lines = cleaned_lines("capslock -> esc\n# comment\nesc->capslock\nesc -> micmute\n");
    let table = load_rewire_map(&lines).unwrap();
    assert_eq!(table[CAPSLOCK as usize], ESC);
    assert_eq!(table[ESC as usize], MICMUTE);
    assert_eq!(table[2], 2);
}

#[test]
fn rewire_map_refuses_bad_lines() {
    let e = load_rewire_map(&cleaned_lines("capslock esc\n")).unwrap_err();
    assert_eq!(e.kind, ErrorKind::InvalidRewireLine);
    assert_eq!(e.text, "CAPSLOCKESC");
    let e = load_rewire_map(&cleaned_lines("capslock -> nokey\n")).unwrap_err();
    assert_eq!(e.kind, ErrorKind::UnknownRewireKey);
    assert_eq!(e.text, "CAPSLOCK->NOKEY");
    let e = load_rewire_map(&cleaned_lines("ok -> esc\n")).unwrap_err();
    assert_eq!(e.kind, ErrorKind::RewireKeyOutOfRange);
    let e = load_rewire_map(&cleaned_lines("a -> b -> c\nbad\n")).unwrap_err();
    assert_eq!(e.kind, ErrorKind::InvalidRewireLine);
    assert_eq!(e.text, "A->B->C");
}

#[test]
fn rewire_changes_only_the_code() {
    let table = load_rewire_map(&cleaned_lines("capslock -> esc\n")).unwrap();
    let ev = KeyEvent { event_type: 1, code: CAPSLOCK, value: 1 };
    assert_eq!(rewire(&table, ev), KeyEvent { event_type: 1, code: ESC, value: 1 });
    let other = KeyEvent { event_type: 1, code: 30, value: 0 };
    assert_eq!(rewire(&table, other), other);
    let highest = KeyEvent { event_type: 1, code: MICMUTE, value: 1 };
    assert_eq!(rewire(&table, highest), highest);
}

#[test]
fn parse_u16_follows_std() {
    assert_eq!(parse_u16("0"), Some(0));
    assert_eq!(parse_u16("+12"), Some(12));
    assert_eq!(parse_u16("65535"), Some(65535));
    assert_eq!(parse_u16("65536"), None);
    assert_eq!(parse_u16("-0"), None);
    assert_eq!(parse_u16("-3"), None);
    assert_eq!(parse_u16(""), None);
    assert_eq!(parse_u16("+"), None);
    assert_eq!(parse_u16("1x"), None);
    for s in ["7", "+7", "-7", "99999", "4000000000", "12a"] {
        assert_eq!(parse_u16(s), s.parse::<u16>().ok());
    }
}

#[test]
fn config_new_is_zero() {
    assert_eq!(Config::new(), Config { step_size: 0, mode: 0 });
}

#[test]
fn load_default_reads_step_size() {
    let lines = cleaned_lines("# mouse\nstep_size : 25\ngrab_linear: true\n");
    assert_eq!(load_default(&lines).unwrap(), Config { step_size: 25, mode: 0 });
    let lines = cleaned_lines("step_size:3\nstep_size:9\n");
    assert_eq!(load_default(&lines).unwrap().step_size, 9);
    assert_eq!(load_default(&Vec::new()).unwrap(), Config::new());
}

#[test]
fn load_default_refuses_bad_lines() {
    let e = load_default(&cleaned_lines("step_size 25\n")).unwrap_err();
    assert_eq!(e.kind, ErrorKind::InvalidVmouseLine);
    assert_eq!(e.text, "STEP_SIZE25");
    let e = load_default(&cleaned_lines("step_size: -1\n")).unwrap_err();
    assert_eq!(e.kind, ErrorKind::InvalidVmouseNumber);
    assert_eq!(e.text, "-1");
}

#[test]
fn io_errors_become_device_errors() {
    let e: DeviceError = std::io::Error::new(std::io::ErrorKind::Other, "gone").into();
    assert!(matches!(e, DeviceError::Io(_)));
}
