use bincur::config::keymap::{initialize, load_keymap_fwd, parse_keymap, parse_rewire, KeyConfig};
use bincur::config::vmouse::{load_default_props, Props};
use bincur::config::{cleaned_lines, parse_i32, ErrorKind};
use bincur::device::vmouse::Behavior;
use bincur::text::{split, underscored};

const LEFTCTRL: usize = 29;
const Q: usize = 16;
const LEFTALT: usize = 56;
const LEFTSHIFT: usize = 42;
const C: usize = 46;
const I: usize = 23;
const K: usize = 37;
const J: usize = 36;
const L: usize = 38;
const SPACE: usize = 57;
const SEMICOLON: usize = 39;
const LEFTMETA: usize = 125;

fn lines(text: &str) -> Vec<String> {
    cleaned_lines(text)
}

const KEYMAP: &str = "# 0. Terminate process\n\
leftctrl+q : EXIT\n\
\n\
# 1. Trigger virtual mouse mode\n\
leftalt : LINEAR_MODE\n\
leftalt+leftshift : LOGARITHMIC_MODE\n\
leftalt+c : SCROLL_MODE\n\
\n\
# 2. Move cursor or scroll\n\
i : MOVE_UP\n\
k : MOVE_DOWN\n\
j : MOVE_LEFT\n\
l : MOVE_RIGHT\n\
\n\
# 3. Mouse click\n\
space : CLICK_LEFT\n\
semicolon : CLICK_RIGHT\n";

fn readme_config() -> KeyConfig {
    let keymaps = vec![lines(KEYMAP)];
    let rewires = vec![lines("")];
    initialize(&keymaps, &rewires).unwrap()
}

#[test]
fn cleaned_lines_drop_comments_spaces_and_case() {
    let text = "# comment\n  leftalt : linear_mode \r\n\n\t\nspace:click_left\r\n   # indented comment\n";
    let got = cleaned_lines(text);
    assert_eq!(got, vec!["LEFTALT:LINEAR_MODE".to_string(), "\t".to_string(), "SPACE:CLICK_LEFT".to_string()]);
}

#[test]
fn cleaned_lines_of_empty_text() {
    assert!(cleaned_lines("").is_empty());
    assert!(cleaned_lines("\n\n#x\n").is_empty());
}

#[test]
fn cleaned_lines_keep_a_lone_trailing_carriage_return() {
    assert_eq!(cleaned_lines("a:b\r"), vec!["A:B\r".to_string()]);
}

#[test]
fn split_matches_str_split() {
    let got: Vec<&str> = split("a->b->", "->");
    assert_eq!(got, vec!["a", "b", ""]);
    let got: Vec<&str> = split("a+b+c", "+");
    assert_eq!(got, "a+b+c".split('+').collect::<Vec<_>>());
    let got: Vec<&str> = split("", ":");
    assert_eq!(got, vec![""]);
    let got: Vec<&str> = split("x-->y", "->");
    assert_eq!(got, "x-->y".split("->").collect::<Vec<_>>());
}

#[test]
fn underscored_replaces_spaces() {
    assert_eq!(underscored("AT Translated Set 2 keyboard"), "AT_Translated_Set_2_keyboard");
}

#[test]
fn parse_i32_follows_std() {
    for s in ["256", "-2147483648", "2147483647", "2147483648", "-2147483649", "+5", "-", "+", "", "12a", "-0", "007", " 1", "99999999999999999999"] {
        assert_eq!(parse_i32(s), s.parse::<i32>().ok(), "input {:?}", s);
    }
}

#[test]
fn behavior_names_are_case_insensitive() {
    assert_eq!(Behavior::from_str("exit"), Some(Behavior::Exit));
    assert_eq!(Behavior::from_str("Linear_Mode"), Some(Behavior::LinearModeOn));
    assert_eq!(Behavior::from_str("RELEASE_RIGHT"), Some(Behavior::ReleaseRight));
    assert_eq!(Behavior::from_str("reset"), Some(Behavior::Reset));
    assert_eq!(Behavior::from_str("LINEAR_MODE_OFF"), None);
    assert_eq!(Behavior::from_str("KEYUP"), None);
    assert_eq!(Behavior::from_str(""), None);
}

#[test]
fn behavior_index_round_trip() {
    for i in 0..17 {
        let b = Behavior::from_usize(i).unwrap();
        assert_eq!(b.index(), i);
    }
    assert_eq!(Behavior::from_usize(17), None);
}

#[test]
fn keymap_of_the_readme() {
    let cfg = parse_keymap(&lines(KEYMAP)).unwrap();
    assert_eq!(cfg.len(), 17);
    assert_eq!(cfg[Behavior::Exit.index()], vec![LEFTCTRL, Q]);
    assert_eq!(cfg[Behavior::LinearModeOn.index()], vec![LEFTALT]);
    assert_eq!(cfg[Behavior::LogarithmicModeOn.index()], vec![LEFTALT, LEFTSHIFT]);
    assert_eq!(cfg[Behavior::ScrollModeOn.index()], vec![LEFTALT, C]);
    assert_eq!(cfg[Behavior::MoveUp.index()], vec![I]);
    assert_eq!(cfg[Behavior::MoveDown.index()], vec![K]);
    assert_eq!(cfg[Behavior::MoveLeft.index()], vec![J]);
    assert_eq!(cfg[Behavior::MoveRight.index()], vec![L]);
    assert_eq!(cfg[Behavior::ClickLeft.index()], vec![SPACE]);
    assert_eq!(cfg[Behavior::ClickRight.index()], vec![SEMICOLON]);
    assert!(cfg[Behavior::Reset.index()].is_empty());
    assert!(cfg[Behavior::KeyUp.index()].is_empty());
}

#[test]
fn keymap_later_line_wins() {
    let cfg = parse_keymap(&lines("i:move_up\nk:move_up")).unwrap();
    assert_eq!(cfg[Behavior::MoveUp.index()], vec![K]);
}

#[test]
fn keymap_errors() {
    let e = parse_keymap(&lines("a:b:c")).unwrap_err();
    assert_eq!(e.kind, ErrorKind::InvalidKeymapLine);
    assert_eq!(e.text, "A:B:C");
    let e = parse_keymap(&lines("leftalt")).unwrap_err();
    assert_eq!(e.kind, ErrorKind::InvalidKeymapLine);
    let e = parse_keymap(&lines("nosuchkey : exit")).unwrap_err();
    assert_eq!(e.kind, ErrorKind::UnknownKeymapKey);
    assert_eq!(e.text, "NOSUCHKEY:EXIT");
    let e = parse_keymap(&lines("a+ : exit")).unwrap_err();
    assert_eq!(e.kind, ErrorKind::UnknownKeymapKey);
    let e = parse_keymap(&lines("a : fly")).unwrap_err();
    assert_eq!(e.kind, ErrorKind::UnknownBehavior);
    assert_eq!(e.text, "FLY");
    // the first bad line decides
    let e = parse_keymap(&lines("a:fly\nb:c:d")).unwrap_err();
    assert_eq!(e.kind, ErrorKind::UnknownBehavior);
}

#[test]
fn keymaps_per_keyboard() {
    let per = vec![lines("a:exit"), lines("b:exit")];
    let got = load_keymap_fwd(&per).unwrap();
    assert_eq!(got.len(), 2);
    assert_eq!(got[0][Behavior::Exit.index()], vec![30]);
    assert_eq!(got[1][Behavior::Exit.index()], vec![48]);
    let per = vec![lines("a:exit"), lines("b:nothing"), lines("c:d:e")];
    assert_eq!(load_keymap_fwd(&per).unwrap_err().kind, ErrorKind::UnknownBehavior);
}

#[test]
fn rewire_table_of_the_readme() {
    let cfg = parse_rewire(&lines("leftalt -> leftmeta\nleftmeta -> leftalt")).unwrap();
    assert_eq!(cfg.len(), 249);
    assert_eq!(cfg[LEFTMETA], vec![LEFTALT]);
    assert_eq!(cfg[LEFTALT], vec![LEFTMETA]);
    assert!(cfg[0].is_empty());
}

#[test]
fn rewire_errors() {
    let e = parse_rewire(&lines("a > b")).unwrap_err();
    assert_eq!(e.kind, ErrorKind::InvalidRewireLine);
    let e = parse_rewire(&lines("a->b->c")).unwrap_err();
    assert_eq!(e.kind, ErrorKind::InvalidRewireLine);
    let e = parse_rewire(&lines("a -> nosuch")).unwrap_err();
    assert_eq!(e.kind, ErrorKind::UnknownRewireKey);
    let e = parse_rewire(&lines("nosuch -> a")).unwrap_err();
    assert_eq!(e.kind, ErrorKind::UnknownRewireKey);
    let e = parse_rewire(&lines("a -> ok")).unwrap_err();
    assert_eq!(e.kind, ErrorKind::RewireKeyOutOfRange);
    assert_eq!(e.text, "A->OK");
}

#[test]
fn rewire_source_beyond_table_is_refused() {
    let keymaps = vec![lines("")];
    let rewires = vec![lines("ok -> a")];
    let e = initialize(&keymaps, &rewires).unwrap_err();
    assert_eq!(e.kind, ErrorKind::RewireKeyOutOfRange);
    // a target of KEYCODE_MAX is reversed like any other, so its sources are checked too
    let rewires = vec![lines("ok -> micmute")];
    assert_eq!(initialize(&keymaps, &rewires).unwrap_err().kind, ErrorKind::RewireKeyOutOfRange);
    let rewires = vec![lines("a -> micmute")];
    let cfg = initialize(&keymaps, &rewires).unwrap();
    assert_eq!(cfg.rewire_rvs[0][30], vec![248]);
}

#[test]
fn keymap_error_comes_before_rewire_error() {
    let keymaps = vec![lines("a:fly")];
    let rewires = vec![lines("a->b->c")];
    assert_eq!(initialize(&keymaps, &rewires).unwrap_err().kind, ErrorKind::UnknownBehavior);
}

#[test]
fn related_behaviors_are_the_reverse_keymap() {
    let cfg = readme_config();
    let rel = cfg.get_related_behaviors(0, LEFTALT).unwrap();
    assert_eq!(rel, &vec![Behavior::LinearModeOn, Behavior::LogarithmicModeOn, Behavior::ScrollModeOn]);
    let rel = cfg.get_related_behaviors(0, Q).unwrap();
    assert_eq!(rel, &vec![Behavior::Exit]);
    assert!(cfg.get_related_behaviors(0, 30).unwrap().is_empty());
    assert!(cfg.get_related_behaviors(0, 249).is_none());
    assert!(cfg.get_related_behaviors(0, 248).is_some());
}

#[test]
fn combo_lookup() {
    let cfg = readme_config();
    assert_eq!(cfg.get_combo(0, Behavior::Exit), Some(&vec![LEFTCTRL, Q]));
    assert_eq!(cfg.get_combo(0, Behavior::Reset), None);
    assert_eq!(cfg.get_combo(0, Behavior::KeyUp), None);
}

#[test]
fn repeated_key_is_related_once_per_occurrence() {
    let cfg = initialize(&vec![lines("a+a:exit\na:reset")], &vec![lines("")]).unwrap();
    assert_eq!(cfg.get_related_behaviors(0, 30).unwrap(), &vec![Behavior::Exit, Behavior::Exit, Behavior::Reset]);
}

#[test]
fn vmouse_settings_of_the_readme() {
    let text = "# Grab mode trigger keys\n\
grab_linear : FALSE\n\
grab_logarithmic : TRUE\n\
grab_scroll : true\n\
step_size_x : 256\n\
step_size_y : 256\n\
scroll_dist_x : 2\n\
scroll_dist_y : -2\n\
unknown_key : 5\n";
    let p = load_default_props(&lines(text)).unwrap();
    assert!(!p.grab_linear);
    assert!(p.grab_logarithmic);
    assert!(p.grab_scroll);
    assert_eq!(p.step_size_x, 256);
    assert_eq!(p.step_size_y, 256);
    assert_eq!(p.scroll_dist_x, 2);
    assert_eq!(p.scroll_dist_y, -2);
    assert_eq!(p.mode, 0);
    assert_eq!(p.min_step_size_x, 0);
    assert_eq!(p.scroll_accum_x, 0);
}

#[test]
fn vmouse_settings_errors() {
    let e = load_default_props(&lines("step_size_x : big")).unwrap_err();
    assert_eq!(e.kind, ErrorKind::InvalidVmouseNumber);
    assert_eq!(e.text, "BIG");
    let e = load_default_props(&lines("step_size_x")).unwrap_err();
    assert_eq!(e.kind, ErrorKind::InvalidVmouseLine);
    let e = load_default_props(&lines("step_size_x : 99999999999")).unwrap_err();
    assert_eq!(e.kind, ErrorKind::InvalidVmouseNumber);
    assert_eq!(load_default_props(&lines("")).unwrap(), Props::new());
}

#[test]
fn props_reset_xy_takes_distances_only() {
    let defaults = load_default_props(&lines("step_size_x:256\nstep_size_y:128\nscroll_dist_x:2\nscroll_dist_y:3\ngrab_scroll:true")).unwrap();
    let mut p = Props::new();
    p.mode = 2;
    p.step_size_x = 4;
    p.scroll_accum_y = 7;
    p.reset_xy(&defaults);
    assert_eq!(p.step_size_x, 256);
    assert_eq!(p.step_size_y, 128);
    assert_eq!(p.scroll_dist_x, 2);
    assert_eq!(p.scroll_dist_y, 3);
    assert_eq!(p.mode, 2);
    assert_eq!(p.scroll_accum_y, 7);
    assert!(!p.grab_scroll);
}

#[test]
fn cleaning_ignores_case_and_spaces() {
    let a = cleaned_lines("LeftAlt : linear_Mode\nSPACE:click_left\n");
    let b = cleaned_lines("leftalt:LINEAR_MODE\n s p a c e : CLICK_LEFT \n");
    assert_eq!(a, b);
    let keymaps_a = vec![a];
    let keymaps_b = vec![b];
    let rewires = vec![Vec::new()];
    let ca = initialize(&keymaps_a, &rewires).unwrap();
    let cb = initialize(&keymaps_b, &rewires).unwrap();
    assert_eq!(ca.keymap_fwd, cb.keymap_fwd);
}
