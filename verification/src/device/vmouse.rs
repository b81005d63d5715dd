//! The virtual mouse: its behaviors, the set of active behaviors, and what
//! dispatching a behavior does to the mouse state and which events it emits.
use vstd::prelude::*;
use arrayvec::ArrayVec;
use crate::config::keymap::KeyConfig;
use crate::config::vmouse::{reset_xy_spec, Props};
use crate::device::DeviceError;
use crate::outside::{
    behaviors16, behaviors16_clear, behaviors16_new, behaviors16_push, mouse_events2,
    mouse_events2_new, mouse_events2_push, to_uppercase, uppercase,
};
use crate::text::{ascii_upper, is_ascii_text, same_text};

verus! {

/// Number of behaviors.
pub const VAR_COUNT: usize = 17;

/// What a key combination can make the virtual mouse do.
#[derive(Clone, Copy, PartialEq, Eq, Hash, Debug, Structural)]
pub enum Behavior {
    Exit,
    Reset,
    LinearModeOn,
    LinearModeOff,
    LogarithmicModeOn,
    LogarithmicModeOff,
    ScrollModeOn,
    ScrollModeOff,
    MoveUp,
    MoveDown,
    MoveLeft,
    MoveRight,
    ClickLeft,
    ClickRight,
    ReleaseLeft,
    ReleaseRight,
    KeyUp,
}

impl DeepView for Behavior {
    type V = Behavior;

    open spec fn deep_view(&self) -> Behavior {
        *self
    }
}

/// The position of a behavior in declaration order.
pub open spec fn index_of(b: Behavior) -> int {
    match b {
        Behavior::Exit => 0,
        Behavior::Reset => 1,
        Behavior::LinearModeOn => 2,
        Behavior::LinearModeOff => 3,
        Behavior::LogarithmicModeOn => 4,
        Behavior::LogarithmicModeOff => 5,
        Behavior::ScrollModeOn => 6,
        Behavior::ScrollModeOff => 7,
        Behavior::MoveUp => 8,
        Behavior::MoveDown => 9,
        Behavior::MoveLeft => 10,
        Behavior::MoveRight => 11,
        Behavior::ClickLeft => 12,
        Behavior::ClickRight => 13,
        Behavior::ReleaseLeft => 14,
        Behavior::ReleaseRight => 15,
        Behavior::KeyUp => 16,
    }
}

/// The behavior at a position in declaration order.
pub open spec fn behavior_at(i: int) -> Option<Behavior> {
    if i == 0 {
        Some(Behavior::Exit)
    } else if i == 1 {
        Some(Behavior::Reset)
    } else if i == 2 {
        Some(Behavior::LinearModeOn)
    } else if i == 3 {
        Some(Behavior::LinearModeOff)
    } else if i == 4 {
        Some(Behavior::LogarithmicModeOn)
    } else if i == 5 {
        Some(Behavior::LogarithmicModeOff)
    } else if i == 6 {
        Some(Behavior::ScrollModeOn)
    } else if i == 7 {
        Some(Behavior::ScrollModeOff)
    } else if i == 8 {
        Some(Behavior::MoveUp)
    } else if i == 9 {
        Some(Behavior::MoveDown)
    } else if i == 10 {
        Some(Behavior::MoveLeft)
    } else if i == 11 {
        Some(Behavior::MoveRight)
    } else if i == 12 {
        Some(Behavior::ClickLeft)
    } else if i == 13 {
        Some(Behavior::ClickRight)
    } else if i == 14 {
        Some(Behavior::ReleaseLeft)
    } else if i == 15 {
        Some(Behavior::ReleaseRight)
    } else if i == 16 {
        Some(Behavior::KeyUp)
    } else {
        None
    }
}

/// The behavior a configuration value names, after upper-casing.
pub open spec fn behavior_named(name: Seq<char>) -> Option<Behavior> {
    if name == "EXIT"@ {
        Some(Behavior::Exit)
    } else if name == "RESET"@ {
        Some(Behavior::Reset)
    } else if name == "LINEAR_MODE"@ {
        Some(Behavior::LinearModeOn)
    } else if name == "LOGARITHMIC_MODE"@ {
        Some(Behavior::LogarithmicModeOn)
    } else if name == "SCROLL_MODE"@ {
        Some(Behavior::ScrollModeOn)
    } else if name == "MOVE_UP"@ {
        Some(Behavior::MoveUp)
    } else if name == "MOVE_DOWN"@ {
        Some(Behavior::MoveDown)
    } else if name == "MOVE_LEFT"@ {
        Some(Behavior::MoveLeft)
    } else if name == "MOVE_RIGHT"@ {
        Some(Behavior::MoveRight)
    } else if name == "CLICK_LEFT"@ {
        Some(Behavior::ClickLeft)
    } else if name == "CLICK_RIGHT"@ {
        Some(Behavior::ClickRight)
    } else if name == "RELEASE_LEFT"@ {
        Some(Behavior::ReleaseLeft)
    } else if name == "RELEASE_RIGHT"@ {
        Some(Behavior::ReleaseRight)
    } else {
        None
    }
}

/// Behaviors that switch a mode on, and `Exit`: they act as soon as their
/// combination is complete, whatever the mode.
pub open spec fn is_mode_trigger(b: Behavior) -> bool {
    b == Behavior::LinearModeOn || b == Behavior::LogarithmicModeOn || b == Behavior::ScrollModeOn
        || b == Behavior::Exit
}

/// What releasing the keys of a behavior dispatches.
pub open spec fn inverse_spec(b: Behavior) -> Behavior {
    match b {
        Behavior::ClickLeft => Behavior::ReleaseLeft,
        Behavior::ClickRight => Behavior::ReleaseRight,
        Behavior::LinearModeOn => Behavior::LinearModeOff,
        Behavior::LogarithmicModeOn => Behavior::LogarithmicModeOff,
        Behavior::ScrollModeOn => Behavior::ScrollModeOff,
        _ => Behavior::KeyUp,
    }
}

pub proof fn lemma_index_of(b: Behavior)
    ensures
        0 <= index_of(b) < VAR_COUNT,
        behavior_at(index_of(b)) == Some(b),
{
}

pub proof fn lemma_behavior_at(i: int)
    requires
        0 <= i < VAR_COUNT,
    ensures
        behavior_at(i) is Some,
        index_of(behavior_at(i).unwrap()) == i,
{
}

impl Behavior {
    /// The position of this behavior in declaration order.
    pub fn index(&self) -> (r: usize)
        ensures
            r == index_of(*self),
            r < VAR_COUNT,
    {
        match self {
            Behavior::Exit => 0,
            Behavior::Reset => 1,
            Behavior::LinearModeOn => 2,
            Behavior::LinearModeOff => 3,
            Behavior::LogarithmicModeOn => 4,
            Behavior::LogarithmicModeOff => 5,
            Behavior::ScrollModeOn => 6,
            Behavior::ScrollModeOff => 7,
            Behavior::MoveUp => 8,
            Behavior::MoveDown => 9,
            Behavior::MoveLeft => 10,
            Behavior::MoveRight => 11,
            Behavior::ClickLeft => 12,
            Behavior::ClickRight => 13,
            Behavior::ReleaseLeft => 14,
            Behavior::ReleaseRight => 15,
            Behavior::KeyUp => 16,
        }
    }

    /// The behavior at position `i` in declaration order.
    pub fn from_usize(i: usize) -> (r: Option<Behavior>)
        ensures
            r == behavior_at(i as int),
    {
        match i {
            0 => Some(Behavior::Exit),
            1 => Some(Behavior::Reset),
            2 => Some(Behavior::LinearModeOn),
            3 => Some(Behavior::LinearModeOff),
            4 => Some(Behavior::LogarithmicModeOn),
            5 => Some(Behavior::LogarithmicModeOff),
            6 => Some(Behavior::ScrollModeOn),
            7 => Some(Behavior::ScrollModeOff),
            8 => Some(Behavior::MoveUp),
            9 => Some(Behavior::MoveDown),
            10 => Some(Behavior::MoveLeft),
            11 => Some(Behavior::MoveRight),
            12 => Some(Behavior::ClickLeft),
            13 => Some(Behavior::ClickRight),
            14 => Some(Behavior::ReleaseLeft),
            15 => Some(Behavior::ReleaseRight),
            16 => Some(Behavior::KeyUp),
            _ => None,
        }
    }

    /// The behavior a configuration value names, compared after
    /// upper-casing; `None` for a name that is not a behavior.
    pub fn from_str(behavior: &str) -> (r: Option<Behavior>)
        ensures
            r == behavior_named(uppercase(behavior@)),
            is_ascii_text(behavior@) ==> r == behavior_named(ascii_upper(behavior@)),
    {
        let upper = to_uppercase(behavior);
        let s = upper.as_str();
        if same_text(s, "EXIT") {
            Some(Behavior::Exit)
        } else if same_text(s, "RESET") {
            Some(Behavior::Reset)
        } else if same_text(s, "LINEAR_MODE") {
            Some(Behavior::LinearModeOn)
        } else if same_text(s, "LOGARITHMIC_MODE") {
            Some(Behavior::LogarithmicModeOn)
        } else if same_text(s, "SCROLL_MODE") {
            Some(Behavior::ScrollModeOn)
        } else if same_text(s, "MOVE_UP") {
            Some(Behavior::MoveUp)
        } else if same_text(s, "MOVE_DOWN") {
            Some(Behavior::MoveDown)
        } else if same_text(s, "MOVE_LEFT") {
            Some(Behavior::MoveLeft)
        } else if same_text(s, "MOVE_RIGHT") {
            Some(Behavior::MoveRight)
        } else if same_text(s, "CLICK_LEFT") {
            Some(Behavior::ClickLeft)
        } else if same_text(s, "CLICK_RIGHT") {
            Some(Behavior::ClickRight)
        } else if same_text(s, "RELEASE_LEFT") {
            Some(Behavior::ReleaseLeft)
        } else if same_text(s, "RELEASE_RIGHT") {
            Some(Behavior::ReleaseRight)
        } else {
            None
        }
    }

    /// What releasing the keys of this behavior dispatches: the matching
    /// release or mode-off behavior, and `KeyUp` for every other behavior.
    pub fn inverse(&self) -> (r: Option<Behavior>)
        ensures
            r == Some(inverse_spec(*self)),
    {
        match self {
            Behavior::ClickLeft => Some(Behavior::ReleaseLeft),
            Behavior::ClickRight => Some(Behavior::ReleaseRight),
            Behavior::LinearModeOn => Some(Behavior::LinearModeOff),
            Behavior::LogarithmicModeOn => Some(Behavior::LogarithmicModeOff),
            Behavior::ScrollModeOn => Some(Behavior::ScrollModeOff),
            _ => Some(Behavior::KeyUp),
        }
    }

    /// Whether this behavior acts as soon as its combination is complete.
    pub fn is_mode_trigger(&self) -> (r: bool)
        ensures
            r == is_mode_trigger(*self),
    {
        match self {
            Behavior::LinearModeOn | Behavior::LogarithmicModeOn | Behavior::ScrollModeOn
            | Behavior::Exit => true,
            _ => false,
        }
    }
}

/// The behaviors whose flag is set.
pub open spec fn active_set(flags: Seq<bool>) -> Set<Behavior> {
    Set::new(|b: Behavior| flags[index_of(b)])
}

/// The set of behaviors whose key combinations are currently held, one flag
/// per behavior in declaration order.
pub struct ActiveSet {
    pub flags: Vec<bool>,
}

impl View for ActiveSet {
    type V = Set<Behavior>;

    open spec fn view(&self) -> Set<Behavior> {
        active_set(self.flags@)
    }
}

impl ActiveSet {
    pub open spec fn wf(&self) -> bool {
        self.flags@.len() == VAR_COUNT
    }

    /// The empty set.
    pub fn new() -> (r: ActiveSet)
        ensures
            r.wf(),
            r@ == Set::<Behavior>::empty(),
    {
        let mut flags: Vec<bool> = Vec::new();
        let mut i: usize = 0;
        while i < VAR_COUNT
            invariant
                i <= VAR_COUNT,
                flags@.len() == i,
                forall|j: int| 0 <= j < i ==> !flags@[j],
            decreases VAR_COUNT - i,
        {
            flags.push(false);
            i = i + 1;
        }
        let r = ActiveSet { flags };
        proof {
            assert forall|b: Behavior| !r@.contains(b) by {
                lemma_index_of(b);
            }
            assert(r@ =~= Set::<Behavior>::empty());
        }
        r
    }
}

/// Adds `behavior` to the active set; `true` when it was not there before.
pub fn mark_active(active: &mut ActiveSet, behavior: &Behavior) -> (r: bool)
    requires
        old(active).wf(),
    ensures
        final(active).wf(),
        final(active)@ == old(active)@.insert(*behavior),
        final(active).flags@ == old(active).flags@.update(index_of(*behavior), true),
        r == !old(active)@.contains(*behavior),
{
    let i = behavior.index();
    let was = active.flags[i];
    active.flags.set(i, true);
    proof {
        assert forall|b: Behavior| #[trigger] active@.contains(b) == old(active)@.insert(*behavior).contains(b) by {
            lemma_index_of(b);
            lemma_index_of(*behavior);
            if b != *behavior {
                assert(index_of(b) != index_of(*behavior)) by {
                    lemma_index_of(b);
                }
            }
        }
        assert(active@ =~= old(active)@.insert(*behavior));
    }
    !was
}

/// Removes `behavior` from the active set; `true` when it was there.
pub fn mark_inactive(active: &mut ActiveSet, behavior: &Behavior) -> (r: bool)
    requires
        old(active).wf(),
    ensures
        final(active).wf(),
        final(active)@ == old(active)@.remove(*behavior),
        final(active).flags@ == old(active).flags@.update(index_of(*behavior), false),
        r == old(active)@.contains(*behavior),
{
    let i = behavior.index();
    let was = active.flags[i];
    active.flags.set(i, false);
    proof {
        assert forall|b: Behavior| #[trigger] active@.contains(b) == old(active)@.remove(*behavior).contains(b) by {
            lemma_index_of(b);
            lemma_index_of(*behavior);
        }
        assert(active@ =~= old(active)@.remove(*behavior));
    }
    was
}

/// Whether `behavior` is in the active set.
pub fn is_active(active: &ActiveSet, behavior: &Behavior) -> (r: bool)
    requires
        active.wf(),
    ensures
        r == active@.contains(*behavior),
{
    active.flags[behavior.index()]
}

/// Empties the active set.
pub fn clear_activated_set(active: &mut ActiveSet)
    requires
        old(active).wf(),
    ensures
        final(active).wf(),
        final(active)@ == Set::<Behavior>::empty(),
{
    let mut i: usize = 0;
    while i < VAR_COUNT
        invariant
            i <= VAR_COUNT,
            active.flags@.len() == VAR_COUNT,
            forall|j: int| 0 <= j < i ==> !active.flags@[j],
        decreases VAR_COUNT - i,
    {
        active.flags.set(i, false);
        i = i + 1;
    }
    proof {
        assert forall|b: Behavior| !active@.contains(b) by {
            lemma_index_of(b);
        }
        assert(active@ =~= Set::<Behavior>::empty());
    }
}

/// The active set reads back what was written: after `mark_active(b)`,
/// `is_active(b)` holds and `mark_inactive(b)` reports that `b` was there;
/// after `mark_inactive(b)`, `is_active(b)` fails and `mark_active(b)`
/// reports a new entry; either leaves every other behavior as it was.
pub proof fn lemma_active_set_round_trip(s: Set<Behavior>, b: Behavior, c: Behavior)
    ensures
        s.insert(b).contains(b),
        !s.remove(b).contains(b),
        s.insert(b).remove(b) == s.remove(b),
        s.remove(b).insert(b) == s.insert(b),
        c != b ==> s.insert(b).contains(c) == s.contains(c) && s.remove(b).contains(c) == s.contains(
            c,
        ),
{
    assert(s.insert(b).remove(b) =~= s.remove(b));
    assert(s.remove(b).insert(b) =~= s.insert(b));
}

/// The relative axes the virtual mouse reports on.
#[derive(Clone, Copy, PartialEq, Eq, Debug, Structural)]
pub enum RelAxis {
    X,
    Y,
    Wheel,
    HWheel,
    WheelHiRes,
    HWheelHiRes,
}

/// The buttons the virtual mouse presses.
#[derive(Clone, Copy, PartialEq, Eq, Debug, Structural)]
pub enum MouseButton {
    Left,
    Right,
}

/// One event the virtual mouse emits.
#[derive(Clone, Copy, PartialEq, Eq, Debug, Structural)]
pub enum MouseEvent {
    /// Relative motion on an axis.
    Relative { axis: RelAxis, value: i32 },
    /// A button press (1) or release (0).
    Button { button: MouseButton, value: i32 },
}

/// A direction of motion or scrolling.
#[derive(Clone, Copy, PartialEq, Eq, Debug, Structural)]
pub enum Direction {
    Up,
    Down,
    Left,
    Right,
}

pub open spec fn is_vertical_spec(d: Direction) -> bool {
    d == Direction::Up || d == Direction::Down
}

/// Pointer motion in this direction decreases the coordinate.
pub open spec fn move_negative(d: Direction) -> bool {
    d == Direction::Up || d == Direction::Left
}

/// Wheel motion in this direction is negative.
pub open spec fn scroll_negative(d: Direction) -> bool {
    d == Direction::Down || d == Direction::Left
}

impl Direction {
    fn is_vertical(&self) -> (r: bool)
        ensures
            r == is_vertical_spec(*self),
    {
        match self {
            Direction::Up | Direction::Down => true,
            _ => false,
        }
    }

    fn move_sign(&self) -> (r: i32)
        ensures
            r == if move_negative(*self) {
                -1i32
            } else {
                1i32
            },
    {
        match self {
            Direction::Up | Direction::Left => -1,
            Direction::Down | Direction::Right => 1,
        }
    }

    fn scroll_sign(&self) -> (r: i32)
        ensures
            r == if scroll_negative(*self) {
                -1i32
            } else {
                1i32
            },
    {
        match self {
            Direction::Down | Direction::Left => -1,
            Direction::Up | Direction::Right => 1,
        }
    }
}

/// `-v` as 32-bit wrapping arithmetic computes it (`i32::MIN` stays).
pub open spec fn negate(v: i32) -> i32 {
    if v == i32::MIN {
        v
    } else {
        (-v) as i32
    }
}

/// `v` with a sign applied, wrapping as 32-bit arithmetic does.
pub open spec fn signed(negative: bool, v: i32) -> i32 {
    if negative {
        negate(v)
    } else {
        v
    }
}

/// `(v + 1) >> 1` in wrapping 32-bit arithmetic: half of `v`, rounded up.
pub open spec fn halve(v: i32) -> i32 {
    if v == i32::MAX {
        -0x4000_0000i32
    } else {
        ((v + 1) / 2) as i32
    }
}

/// `v` raised to `min` when below it.
pub open spec fn at_least(v: i32, min: i32) -> i32 {
    if v < min {
        min
    } else {
        v
    }
}

/// Division rounding toward zero, as Rust's `/` on integers does.
pub open spec fn trunc_div(a: int, d: int) -> int {
    if a >= 0 {
        a / d
    } else {
        -((-a) / d)
    }
}

/// The remainder of `trunc_div`, as Rust's `%` on integers gives it.
pub open spec fn trunc_rem(a: int, d: int) -> int {
    a - d * trunc_div(a, d)
}

fn apply_sign(sign: i32, v: i32) -> (r: i32)
    requires
        sign == 1 || sign == -1,
    ensures
        r == signed(sign < 0, v),
{
    if sign < 0 {
        0i32.wrapping_sub(v)
    } else {
        v
    }
}

fn halve_step(v: i32) -> (r: i32)
    ensures
        r == halve(v),
{
    let t = v.wrapping_add(1);
    let r = t >> 1;
    assert(r * 2 <= t && t < r * 2 + 2) by (bit_vector)
        requires
            r == t >> 1,
    ;
    proof {
        if v == i32::MAX {
            assert(t == i32::MIN);
        } else {
            assert(t == v + 1);
            assert(r == t / 2) by (nonlinear_arith)
                requires
                    r * 2 <= t,
                    t < r * 2 + 2,
            ;
        }
    }
    r
}

fn div_notch(a: i32) -> (r: (i32, i32))
    ensures
        r.0 == trunc_div(a as int, 120),
        r.1 == trunc_rem(a as int, 120),
{
    let q = a / 120;
    let m = a % 120;
    proof {
        if a >= 0 {
            assert(q == a / 120);
        }
    }
    (q, m)
}

/// The events a move in direction `dir` emits, and the properties after it:
/// linear mode moves by the step; logarithmic mode halves the step (not
/// below its minimum) and moves by it; scroll mode sets the scroll distance
/// (halved when logarithmic mode is also held, not below its minimum),
/// reports it as high-resolution wheel motion, adds it to the accumulator
/// and reports its whole multiples of 120 as wheel notches; mode 0 emits
/// nothing.
pub open spec fn move_spec(p: Props, dir: Direction, log_active: bool) -> (Props, Seq<MouseEvent>) {
    let vertical = is_vertical_spec(dir);
    let axis = if vertical {
        RelAxis::Y
    } else {
        RelAxis::X
    };
    let step = if vertical {
        p.step_size_y
    } else {
        p.step_size_x
    };
    let min_step = if vertical {
        p.min_step_size_y
    } else {
        p.min_step_size_x
    };
    if p.mode == 1 {
        (p, seq![MouseEvent::Relative { axis, value: signed(move_negative(dir), step) }])
    } else if p.mode == 2 {
        let s = at_least(halve(step), min_step);
        let q = if vertical {
            Props { step_size_y: s, ..p }
        } else {
            Props { step_size_x: s, ..p }
        };
        (q, seq![MouseEvent::Relative { axis, value: signed(move_negative(dir), s) }])
    } else if p.mode == 3 {
        let dist = if vertical {
            p.scroll_dist_y
        } else {
            p.scroll_dist_x
        };
        let min_dist = if vertical {
            p.min_scroll_dist_y
        } else {
            p.min_scroll_dist_x
        };
        let accum = if vertical {
            p.scroll_accum_y
        } else {
            p.scroll_accum_x
        };
        let d = at_least(
            if log_active {
                halve(dist)
            } else {
                dist
            },
            min_dist,
        );
        let delta = signed(scroll_negative(dir), d);
        let acc = accum.wrapping_add(delta);
        let rest = trunc_rem(acc as int, 120) as i32;
        let notches = trunc_div(acc as int, 120) as i32;
        let q = if vertical {
            Props { scroll_dist_y: d, scroll_accum_y: rest, ..p }
        } else {
            Props { scroll_dist_x: d, scroll_accum_x: rest, ..p }
        };
        let (hi_res, notch) = if vertical {
            (RelAxis::WheelHiRes, RelAxis::Wheel)
        } else {
            (RelAxis::HWheelHiRes, RelAxis::HWheel)
        };
        (
            q,
            seq![
                MouseEvent::Relative { axis: hi_res, value: delta },
                MouseEvent::Relative { axis: notch, value: notches },
            ],
        )
    } else {
        (p, Seq::empty())
    }
}

/// The events a press (1) or release (0) of a mouse button emits: none in
/// mode 0, none for a vertical direction.
pub open spec fn click_spec(p: Props, dir: Direction, value: i32) -> Seq<MouseEvent> {
    if p.mode == 0 {
        Seq::empty()
    } else if dir == Direction::Left {
        seq![MouseEvent::Button { button: MouseButton::Left, value }]
    } else if dir == Direction::Right {
        seq![MouseEvent::Button { button: MouseButton::Right, value }]
    } else {
        Seq::empty()
    }
}

/// Computes a move in direction `dir` (see `move_spec`).
pub fn new_move_event(mouse: &mut Props, direction: Direction, active: &ActiveSet) -> (r: ArrayVec<MouseEvent, 2>)
    requires
        active.wf(),
    ensures
        (*final(mouse), mouse_events2(r)) == move_spec(
            *old(mouse),
            direction,
            active@.contains(Behavior::LogarithmicModeOn),
        ),
{
    let mut events = mouse_events2_new();
    let vertical = direction.is_vertical();
    if mouse.mode == 1 {
        let (axis, step) = if vertical {
            (RelAxis::Y, mouse.step_size_y)
        } else {
            (RelAxis::X, mouse.step_size_x)
        };
        mouse_events2_push(
            &mut events,
            MouseEvent::Relative { axis, value: apply_sign(direction.move_sign(), step) },
        );
    } else if mouse.mode == 2 {
        let (axis, step, min_step) = if vertical {
            (RelAxis::Y, mouse.step_size_y, mouse.min_step_size_y)
        } else {
            (RelAxis::X, mouse.step_size_x, mouse.min_step_size_x)
        };
        let mut s = halve_step(step);
        if s < min_step {
            s = min_step;
        }
        if vertical {
            mouse.step_size_y = s;
        } else {
            mouse.step_size_x = s;
        }
        mouse_events2_push(
            &mut events,
            MouseEvent::Relative { axis, value: apply_sign(direction.move_sign(), s) },
        );
    } else if mouse.mode == 3 {
        let (dist, accum, hi_res, notch, min_dist) = if vertical {
            (
                mouse.scroll_dist_y,
                mouse.scroll_accum_y,
                RelAxis::WheelHiRes,
                RelAxis::Wheel,
                mouse.min_scroll_dist_y,
            )
        } else {
            (
                mouse.scroll_dist_x,
                mouse.scroll_accum_x,
                RelAxis::HWheelHiRes,
                RelAxis::HWheel,
                mouse.min_scroll_dist_x,
            )
        };
        let mut d = dist;
        if is_active(active, &Behavior::LogarithmicModeOn) {
            d = halve_step(d);
        }
        if d < min_dist {
            d = min_dist;
        }
        let delta = apply_sign(direction.scroll_sign(), d);
        let acc = accum.wrapping_add(delta);
        let (notches, rest) = div_notch(acc);
        if vertical {
            mouse.scroll_dist_y = d;
            mouse.scroll_accum_y = rest;
        } else {
            mouse.scroll_dist_x = d;
            mouse.scroll_accum_x = rest;
        }
        mouse_events2_push(&mut events, MouseEvent::Relative { axis: hi_res, value: delta });
        mouse_events2_push(&mut events, MouseEvent::Relative { axis: notch, value: notches });
    }
    proof {
        assert(mouse_events2(events) =~= move_spec(
            *old(mouse),
            direction,
            active@.contains(Behavior::LogarithmicModeOn),
        ).1);
    }
    events
}

/// Computes a button press (1) or release (0) (see `click_spec`).
pub fn new_click_event(mouse: &Props, direction: Direction, value: i32) -> (r: ArrayVec<MouseEvent, 2>)
    ensures
        mouse_events2(r) == click_spec(*mouse, direction, value),
{
    let mut events = mouse_events2_new();
    if mouse.mode == 0 {
        return events;
    }
    match direction {
        Direction::Left => mouse_events2_push(
            &mut events,
            MouseEvent::Button { button: MouseButton::Left, value },
        ),
        Direction::Right => mouse_events2_push(
            &mut events,
            MouseEvent::Button { button: MouseButton::Right, value },
        ),
        _ => {},
    }
    assert(mouse_events2(events) =~= click_spec(*mouse, direction, value));
    events
}


/// What dispatching a behavior asks of the caller.
pub enum Dispatched {
    /// Terminate the program.
    Exit,
    /// Only the mouse state changed; `true` when the triggering key should
    /// be grabbed.
    Grab(bool),
    /// Emit these events on the virtual mouse; the key is grabbed.
    Emit(ArrayVec<MouseEvent, 2>),
}

/// The meaning of a dispatch result.
pub enum DispatchView {
    Exit,
    Reset,
    Grab(bool),
    Emit(Seq<MouseEvent>),
}

/// The meaning of what `Behavior::dispatch` returned.
pub open spec fn dispatch_view(r: &Result<Dispatched, DeviceError>) -> DispatchView {
    match r {
        Ok(Dispatched::Exit) => DispatchView::Exit,
        Ok(Dispatched::Grab(g)) => DispatchView::Grab(*g),
        Ok(Dispatched::Emit(v)) => DispatchView::Emit(mouse_events2(*v)),
        Err(_) => DispatchView::Reset,
    }
}

/// `p` in mode `m`.
pub open spec fn with_mode(p: Props, m: u8) -> Props {
    Props { mode: m, ..p }
}

/// What dispatching `b` does to the mouse properties and what it asks of
/// the caller. Mode keys raise the mode (scroll 3 > logarithmic 2 >
/// linear 1) and report their grab setting; releasing a mode key falls
/// back to the highest mode still held.
pub open spec fn dispatch_spec(b: Behavior, p: Props, active: Set<Behavior>, defaults: Props) -> (Props, DispatchView) {
    match b {
        Behavior::Exit => (p, DispatchView::Exit),
        Behavior::Reset => (p, DispatchView::Reset),
        Behavior::LinearModeOn => (
            if p.mode < 1 {
                with_mode(p, 1)
            } else {
                p
            },
            DispatchView::Grab(p.grab_linear),
        ),
        Behavior::LinearModeOff => (
            if p.mode == 1 {
                with_mode(p, 0)
            } else {
                p
            },
            DispatchView::Grab(p.grab_linear),
        ),
        Behavior::LogarithmicModeOn => (
            if p.mode < 2 {
                with_mode(p, 2)
            } else {
                p
            },
            DispatchView::Grab(p.grab_logarithmic),
        ),
        Behavior::LogarithmicModeOff => {
            let m = if p.mode == 2 {
                if active.contains(Behavior::LinearModeOn) {
                    1u8
                } else {
                    0u8
                }
            } else {
                p.mode
            };
            (reset_xy_spec(with_mode(p, m), defaults), DispatchView::Grab(p.grab_logarithmic))
        },
        Behavior::ScrollModeOn => (with_mode(p, 3), DispatchView::Grab(p.grab_scroll)),
        Behavior::ScrollModeOff => (
            if p.mode == 3 {
                if active.contains(Behavior::LogarithmicModeOn) {
                    with_mode(p, 2)
                } else if active.contains(Behavior::LinearModeOn) {
                    reset_xy_spec(with_mode(p, 1), defaults)
                } else {
                    with_mode(p, 0)
                }
            } else {
                p
            },
            DispatchView::Grab(p.grab_scroll),
        ),
        Behavior::MoveUp => {
            let (q, e) = move_spec(p, Direction::Up, active.contains(Behavior::LogarithmicModeOn));
            (q, DispatchView::Emit(e))
        },
        Behavior::MoveDown => {
            let (q, e) = move_spec(p, Direction::Down, active.contains(Behavior::LogarithmicModeOn));
            (q, DispatchView::Emit(e))
        },
        Behavior::MoveLeft => {
            let (q, e) = move_spec(p, Direction::Left, active.contains(Behavior::LogarithmicModeOn));
            (q, DispatchView::Emit(e))
        },
        Behavior::MoveRight => {
            let (q, e) = move_spec(
                p,
                Direction::Right,
                active.contains(Behavior::LogarithmicModeOn),
            );
            (q, DispatchView::Emit(e))
        },
        Behavior::ClickLeft => (p, DispatchView::Emit(click_spec(p, Direction::Left, 1))),
        Behavior::ClickRight => (p, DispatchView::Emit(click_spec(p, Direction::Right, 1))),
        Behavior::ReleaseLeft => (p, DispatchView::Emit(click_spec(p, Direction::Left, 0))),
        Behavior::ReleaseRight => (p, DispatchView::Emit(click_spec(p, Direction::Right, 0))),
        Behavior::KeyUp => (p, DispatchView::Grab(true)),
    }
}

impl Behavior {
    /// Performs this behavior on the mouse properties `mouse`, given the
    /// active behaviors and the default properties (see `dispatch_spec`).
    /// `Reset` is the error `ResetRequested`.
    pub fn dispatch(&self, mouse: &mut Props, active: &ActiveSet, defaults: &Props) -> (r: Result<Dispatched, DeviceError>)
        requires
            active.wf(),
        ensures
            (*final(mouse), dispatch_view(&r)) == dispatch_spec(*self, *old(mouse), active@, *defaults),
            r matches Err(e) ==> e is ResetRequested,
    {
        match self {
            Behavior::Exit => Ok(Dispatched::Exit),
            Behavior::Reset => Err(DeviceError::ResetRequested),
            Behavior::LinearModeOn => {
                if mouse.mode < 1 {
                    mouse.mode = 1;
                }
                Ok(Dispatched::Grab(mouse.grab_linear))
            },
            Behavior::LinearModeOff => {
                if mouse.mode == 1 {
                    mouse.mode = 0;
                }
                Ok(Dispatched::Grab(mouse.grab_linear))
            },
            Behavior::LogarithmicModeOn => {
                if mouse.mode < 2 {
                    mouse.mode = 2;
                }
                Ok(Dispatched::Grab(mouse.grab_logarithmic))
            },
            Behavior::LogarithmicModeOff => {
                if mouse.mode == 2 {
                    if is_active(active, &Behavior::LinearModeOn) {
                        mouse.mode = 1;
                    } else {
                        mouse.mode = 0;
                    }
                }
                mouse.reset_xy(defaults);
                Ok(Dispatched::Grab(mouse.grab_logarithmic))
            },
            Behavior::ScrollModeOn => {
                mouse.mode = 3;
                Ok(Dispatched::Grab(mouse.grab_scroll))
            },
            Behavior::ScrollModeOff => {
                if mouse.mode == 3 {
                    if is_active(active, &Behavior::LogarithmicModeOn) {
                        mouse.mode = 2;
                    } else if is_active(active, &Behavior::LinearModeOn) {
                        mouse.mode = 1;
                        mouse.reset_xy(defaults);
                    } else {
                        mouse.mode = 0;
                    }
                }
                Ok(Dispatched::Grab(mouse.grab_scroll))
            },
            Behavior::MoveUp => Ok(Dispatched::Emit(new_move_event(mouse, Direction::Up, active))),
            Behavior::MoveDown => Ok(
                Dispatched::Emit(new_move_event(mouse, Direction::Down, active)),
            ),
            Behavior::MoveLeft => Ok(
                Dispatched::Emit(new_move_event(mouse, Direction::Left, active)),
            ),
            Behavior::MoveRight => Ok(
                Dispatched::Emit(new_move_event(mouse, Direction::Right, active)),
            ),
            Behavior::ClickLeft => Ok(Dispatched::Emit(new_click_event(mouse, Direction::Left, 1))),
            Behavior::ClickRight => Ok(
                Dispatched::Emit(new_click_event(mouse, Direction::Right, 1)),
            ),
            Behavior::ReleaseLeft => Ok(
                Dispatched::Emit(new_click_event(mouse, Direction::Left, 0)),
            ),
            Behavior::ReleaseRight => Ok(
                Dispatched::Emit(new_click_event(mouse, Direction::Right, 0)),
            ),
            Behavior::KeyUp => Ok(Dispatched::Grab(true)),
        }
    }
}

/// The mouse properties at start-up: a copy of the defaults.
pub fn initialize(defaults: &Props) -> (r: Props)
    ensures
        r == *defaults,
{
    *defaults
}

/// The current mode of the mouse (0 inactive, 1 linear, 2 logarithmic,
/// 3 scroll).
pub fn get_mode(mouse: &Props) -> (r: u8)
    ensures
        r == mouse.mode,
{
    mouse.mode
}


/// An active behavior that is not a mode trigger.
pub open spec fn is_candidate(active: Set<Behavior>, b: Behavior) -> bool {
    active.contains(b) && !is_mode_trigger(b)
}

/// The greatest combination length on keyboard `d` among the candidates
/// at the first `n` positions (0 when there are none).
pub open spec fn longest_len(cfg: KeyConfig, d: int, active: Set<Behavior>, n: int) -> nat
    decreases n,
{
    if n <= 0 {
        0
    } else {
        let m = longest_len(cfg, d, active, n - 1);
        let b = behavior_at(n - 1).unwrap();
        if is_candidate(active, b) && cfg.combo(d, b).len() > m {
            cfg.combo(d, b).len()
        } else {
            m
        }
    }
}

/// The candidates at the first `n` positions whose combination on keyboard
/// `d` has length `m`, in declaration order.
pub open spec fn longest_among(cfg: KeyConfig, d: int, active: Set<Behavior>, n: int, m: nat) -> Seq<Behavior>
    decreases n,
{
    if n <= 0 {
        Seq::empty()
    } else {
        let s = longest_among(cfg, d, active, n - 1, m);
        let b = behavior_at(n - 1).unwrap();
        if is_candidate(active, b) && cfg.combo(d, b).len() == m {
            s.push(b)
        } else {
            s
        }
    }
}

/// The active behaviors, mode triggers aside, whose combination on
/// keyboard `d` is the longest, in declaration order.
pub open spec fn longest_spec(cfg: KeyConfig, d: int, active: Set<Behavior>) -> Seq<Behavior> {
    longest_among(cfg, d, active, VAR_COUNT as int, longest_len(cfg, d, active, VAR_COUNT as int))
}

proof fn lemma_longest_among_empty(cfg: KeyConfig, d: int, active: Set<Behavior>, n: int, m: nat)
    requires
        m > longest_len(cfg, d, active, n),
    ensures
        longest_among(cfg, d, active, n, m) == Seq::<Behavior>::empty(),
    decreases n,
{
    if n > 0 {
        lemma_longest_among_empty(cfg, d, active, n - 1, m);
    }
}

proof fn lemma_longest_among_len(cfg: KeyConfig, d: int, active: Set<Behavior>, n: int, m: nat)
    requires
        0 <= n,
    ensures
        longest_among(cfg, d, active, n, m).len() <= if n == 0 {
            0
        } else {
            n - 1
        },
    decreases n,
{
    if n > 0 {
        lemma_longest_among_len(cfg, d, active, n - 1, m);
    }
}

/// The active behaviors, mode triggers aside, whose combination on keyboard
/// `kbd_idx` is the longest (see `longest_spec`).
pub fn longest_actives(active: &ActiveSet, config: &KeyConfig, kbd_idx: usize) -> (r: ArrayVec<Behavior, 16>)
    requires
        active.wf(),
        config.wf(),
        kbd_idx < config.keyboards() || forall|b: Behavior| !is_candidate(active@, b),
    ensures
        behaviors16(r) == longest_spec(*config, kbd_idx as int, active@),
{
    let ghost a = active@;
    let mut longest = behaviors16_new();
    let mut max_combo_len: usize = 0;
    let mut i: usize = 0;
    while i < VAR_COUNT
        invariant
            i <= VAR_COUNT,
            active.wf(),
            config.wf(),
            kbd_idx < config.keyboards() || forall|b: Behavior| !is_candidate(a, b),
            a == active@,
            max_combo_len == longest_len(*config, kbd_idx as int, a, i as int),
            behaviors16(longest) == longest_among(
                *config,
                kbd_idx as int,
                a,
                i as int,
                max_combo_len as nat,
            ),
        decreases VAR_COUNT - i,
    {
        proof {
            lemma_behavior_at(i as int);
            lemma_longest_among_len(*config, kbd_idx as int, a, i as int, max_combo_len as nat);
        }
        let b = Behavior::from_usize(i).unwrap();
        if active.flags[i] && !b.is_mode_trigger() {
            proof {
                lemma_index_of(b);
                assert(is_candidate(a, b));
            }
            let len = match config.get_combo(kbd_idx, b) {
                Some(combo) => combo.len(),
                None => 0,
            };
            if len > max_combo_len {
                proof {
                    lemma_longest_among_empty(*config, kbd_idx as int, a, i as int, len as nat);
                }
                behaviors16_clear(&mut longest);
                max_combo_len = len;
                behaviors16_push(&mut longest, b);
            } else if len == max_combo_len {
                behaviors16_push(&mut longest, b);
            }
        }
        i = i + 1;
    }
    longest
}


/// At most 16 behaviors can be longest, so they fit the vector that holds
/// them.
pub proof fn lemma_longest_fits(cfg: KeyConfig, d: int, active: Set<Behavior>)
    ensures
        longest_spec(cfg, d, active).len() <= 16,
{
    lemma_longest_among_len(cfg, d, active, VAR_COUNT as int, longest_len(cfg, d, active, VAR_COUNT as int));
}


/// The mode a mode-on behavior asks for: linear 1, logarithmic 2, scroll 3.
pub open spec fn mode_level(b: Behavior) -> u8 {
    match b {
        Behavior::LinearModeOn => 1,
        Behavior::LogarithmicModeOn => 2,
        Behavior::ScrollModeOn => 3,
        _ => 0,
    }
}

pub open spec fn max_u8(a: u8, b: u8) -> u8 {
    if a < b {
        b
    } else {
        a
    }
}

/// Overlapping mode triggers: scroll beats logarithmic beats linear. A
/// mode-on behavior leaves the mode at the higher of the current mode and
/// its own, so two triggers pressed together give the same mode in either
/// order.
pub proof fn lemma_mode_priority(b1: Behavior, b2: Behavior, p: Props, active: Set<Behavior>, defaults: Props)
    requires
        mode_level(b1) > 0,
        mode_level(b2) > 0,
        p.mode <= 3,
    ensures
        dispatch_spec(b1, p, active, defaults).0.mode == max_u8(p.mode, mode_level(b1)),
        dispatch_spec(b2, dispatch_spec(b1, p, active, defaults).0, active, defaults).0.mode
            == max_u8(max_u8(p.mode, mode_level(b1)), mode_level(b2)),
        dispatch_spec(b2, dispatch_spec(b1, p, active, defaults).0, active, defaults).0.mode
            == dispatch_spec(b1, dispatch_spec(b2, p, active, defaults).0, active, defaults).0.mode,
{
}

/// Mode keys are grabbed as the mouse settings say: each mode-on and
/// mode-off behavior reports the grab setting of its mode.
pub proof fn lemma_mode_keys_grab(p: Props, active: Set<Behavior>, defaults: Props)
    ensures
        dispatch_spec(Behavior::LinearModeOn, p, active, defaults).1 == DispatchView::Grab(p.grab_linear),
        dispatch_spec(Behavior::LinearModeOff, p, active, defaults).1 == DispatchView::Grab(p.grab_linear),
        dispatch_spec(Behavior::LogarithmicModeOn, p, active, defaults).1 == DispatchView::Grab(
            p.grab_logarithmic,
        ),
        dispatch_spec(Behavior::LogarithmicModeOff, p, active, defaults).1 == DispatchView::Grab(
            p.grab_logarithmic,
        ),
        dispatch_spec(Behavior::ScrollModeOn, p, active, defaults).1 == DispatchView::Grab(p.grab_scroll),
        dispatch_spec(Behavior::ScrollModeOff, p, active, defaults).1 == DispatchView::Grab(p.grab_scroll),
{
}

/// Hold to trigger: from the inactive mode, pressing a mode key and
/// releasing it (with no other mode key held) returns to the inactive mode.
pub proof fn lemma_hold_to_trigger(b: Behavior, p: Props, active: Set<Behavior>, defaults: Props)
    requires
        mode_level(b) > 0,
        p.mode == 0,
        !active.contains(Behavior::LinearModeOn),
        !active.contains(Behavior::LogarithmicModeOn),
    ensures
        dispatch_spec(
            inverse_spec(b),
            dispatch_spec(b, p, active, defaults).0,
            active,
            defaults,
        ).0.mode == 0,
{
}

/// Linear mode moves by a fixed step: a move leaves the properties as they
/// were, so repeated moves emit the same event.
pub proof fn lemma_linear_constant(p: Props, dir: Direction, log_active: bool)
    requires
        p.mode == 1,
    ensures
        move_spec(p, dir, log_active).0 == p,
        move_spec(p, dir, log_active).1.len() == 1,
        move_spec(p, dir, log_active).1[0] == (MouseEvent::Relative {
            axis: if is_vertical_spec(dir) {
                RelAxis::Y
            } else {
                RelAxis::X
            },
            value: signed(
                move_negative(dir),
                if is_vertical_spec(dir) {
                    p.step_size_y
                } else {
                    p.step_size_x
                },
            ),
        }),
{
}

/// Logarithmic mode halves the distance at each move (rounding up, not
/// below the minimum): two moves to the right emit `s1` then `s2`, with
/// `s2` half of `s1`.
pub proof fn lemma_logarithmic_halving(p: Props, log_active: bool)
    requires
        p.mode == 2,
        0 <= p.step_size_x < i32::MAX,
        p.min_step_size_x <= 0,
    ensures
        ({
            let (p1, e1) = move_spec(p, Direction::Right, log_active);
            let (p2, e2) = move_spec(p1, Direction::Right, log_active);
            &&& e1 == seq![MouseEvent::Relative { axis: RelAxis::X, value: ((p.step_size_x + 1) / 2) as i32 }]
            &&& e2 == seq![MouseEvent::Relative {
                axis: RelAxis::X,
                value: ((((p.step_size_x + 1) / 2) + 1) / 2) as i32,
            }]
            &&& p2.step_size_x == ((((p.step_size_x + 1) / 2) + 1) / 2) as i32
        }),
{
}

/// Scroll mode reports whole wheel notches: the notches emitted times 120
/// plus the remainder kept equal the accumulated high-resolution scroll
/// (32-bit wrapping sum of the old remainder and the distance emitted),
/// and the remainder kept is below one notch.
pub proof fn lemma_scroll_notches(p: Props, dir: Direction, log_active: bool)
    requires
        p.mode == 3,
    ensures
        ({
            let (q, e) = move_spec(p, dir, log_active);
            let old_accum = if is_vertical_spec(dir) {
                p.scroll_accum_y
            } else {
                p.scroll_accum_x
            };
            let new_accum = if is_vertical_spec(dir) {
                q.scroll_accum_y
            } else {
                q.scroll_accum_x
            };
            &&& e.len() == 2
            &&& e[0] matches MouseEvent::Relative { value: hi, .. }
            &&& e[1] matches MouseEvent::Relative { value: notches, .. }
            &&& notches * 120 + new_accum == old_accum.wrapping_add(hi)
            &&& -120 < new_accum < 120
        }),
{
    let (q, e) = move_spec(p, dir, log_active);
    let old_accum = if is_vertical_spec(dir) {
        p.scroll_accum_y
    } else {
        p.scroll_accum_x
    };
    let dist = if is_vertical_spec(dir) {
        p.scroll_dist_y
    } else {
        p.scroll_dist_x
    };
    let min_dist = if is_vertical_spec(dir) {
        p.min_scroll_dist_y
    } else {
        p.min_scroll_dist_x
    };
    let d = at_least(
        if log_active {
            halve(dist)
        } else {
            dist
        },
        min_dist,
    );
    let delta = signed(scroll_negative(dir), d);
    let acc = old_accum.wrapping_add(delta) as int;
    lemma_trunc_div_rem(acc);
}

proof fn lemma_trunc_div_rem(a: int)
    requires
        i32::MIN <= a <= i32::MAX,
    ensures
        trunc_div(a, 120) * 120 + trunc_rem(a, 120) == a,
        -120 < trunc_rem(a, 120) < 120,
        i32::MIN <= trunc_div(a, 120) <= i32::MAX,
{
    if a >= 0 {
        assert(0 <= a - 120 * (a / 120) < 120) by (nonlinear_arith)
            requires
                a >= 0,
        ;
        assert(0 <= a / 120 <= a) by (nonlinear_arith)
            requires
                a >= 0,
        ;
    } else {
        let b = -a;
        assert(0 <= b - 120 * (b / 120) < 120) by (nonlinear_arith)
            requires
                b > 0,
        ;
        assert(0 <= b / 120 <= b) by (nonlinear_arith)
            requires
                b > 0,
        ;
    }
}

/// Clicks work in every mode but the inactive one: a click presses the
/// button and its release releases it.
pub proof fn lemma_clicks_any_mode(p: Props, active: Set<Behavior>, defaults: Props)
    requires
        1 <= p.mode <= 3,
    ensures
        dispatch_spec(Behavior::ClickLeft, p, active, defaults) == (p, DispatchView::Emit(
            seq![MouseEvent::Button { button: MouseButton::Left, value: 1 }],
        )),
        dispatch_spec(Behavior::ReleaseLeft, p, active, defaults) == (p, DispatchView::Emit(
            seq![MouseEvent::Button { button: MouseButton::Left, value: 0 }],
        )),
        dispatch_spec(Behavior::ClickRight, p, active, defaults) == (p, DispatchView::Emit(
            seq![MouseEvent::Button { button: MouseButton::Right, value: 1 }],
        )),
        dispatch_spec(Behavior::ReleaseRight, p, active, defaults) == (p, DispatchView::Emit(
            seq![MouseEvent::Button { button: MouseButton::Right, value: 0 }],
        )),
{
}

/// In the inactive mode the mouse does not move or click.
pub proof fn lemma_inactive_mode_is_still(b: Behavior, p: Props, active: Set<Behavior>, defaults: Props)
    requires
        p.mode == 0,
        mode_level(b) == 0,
        b != Behavior::LogarithmicModeOff,
    ensures
        dispatch_spec(b, p, active, defaults).0 == p,
        dispatch_spec(b, p, active, defaults).1 matches DispatchView::Emit(e) ==> e.len() == 0,
{
}

proof fn lemma_longest_among_contains(cfg: KeyConfig, d: int, active: Set<Behavior>, n: int, m: nat, b: Behavior)
    requires
        0 <= n <= VAR_COUNT,
    ensures
        longest_among(cfg, d, active, n, m).contains(b) <==> (index_of(b) < n && is_candidate(active, b)
            && cfg.combo(d, b).len() == m),
    decreases n,
{
    lemma_index_of(b);
    if n > 0 {
        lemma_longest_among_contains(cfg, d, active, n - 1, m, b);
        lemma_behavior_at(n - 1);
        let s = longest_among(cfg, d, active, n - 1, m);
        let c = behavior_at(n - 1).unwrap();
        if is_candidate(active, c) && cfg.combo(d, c).len() == m {
            assert(s.push(c).contains(b) <==> (s.contains(b) || b == c)) by {
                if b == c {
                    assert(s.push(c)[s.len() as int] == c);
                }
                if s.contains(b) {
                    let i = choose|i: int| 0 <= i < s.len() && s[i] == b;
                    assert(s.push(c)[i] == b);
                }
                if s.push(c).contains(b) && b != c {
                    let i = choose|i: int| 0 <= i < s.push(c).len() && s.push(c)[i] == b;
                    assert(s[i] == b);
                }
            }
        }
    }
}

proof fn lemma_longest_len_bounds(cfg: KeyConfig, d: int, active: Set<Behavior>, n: int, b: Behavior)
    requires
        0 <= n <= VAR_COUNT,
        index_of(b) < n,
        is_candidate(active, b),
    ensures
        cfg.combo(d, b).len() <= longest_len(cfg, d, active, n),
    decreases n,
{
    lemma_index_of(b);
    lemma_behavior_at(n - 1);
    if index_of(b) < n - 1 {
        lemma_longest_len_bounds(cfg, d, active, n - 1, b);
    }
}

/// Among the active behaviors that are not mode triggers, those dispatched
/// while keys are held are exactly the ones with the longest combination:
/// no candidate's combination is longer, and every candidate with a
/// combination that long is dispatched.
pub proof fn lemma_longest_is_maximal(cfg: KeyConfig, d: int, active: Set<Behavior>, b: Behavior)
    ensures
        is_candidate(active, b) ==> cfg.combo(d, b).len() <= longest_len(cfg, d, active, VAR_COUNT as int),
        longest_spec(cfg, d, active).contains(b) <==> (is_candidate(active, b) && cfg.combo(d, b).len()
            == longest_len(cfg, d, active, VAR_COUNT as int)),
{
    lemma_index_of(b);
    if is_candidate(active, b) {
        lemma_longest_len_bounds(cfg, d, active, VAR_COUNT as int, b);
    }
    lemma_longest_among_contains(
        cfg,
        d,
        active,
        VAR_COUNT as int,
        longest_len(cfg, d, active, VAR_COUNT as int),
        b,
    );
}

/// Moves go the way their direction says. In linear and logarithmic mode,
/// with a positive step below `i32::MAX` on the direction's axis, a move
/// emits one relative event on that axis (Y for up and down, X for left and
/// right), negative for up and left and positive for down and right, whose
/// size is the step after the move: the step itself in linear mode, and in
/// logarithmic mode half the step rounded up, raised to the minimum step.
pub proof fn lemma_move_direction(p: Props, dir: Direction, log_active: bool)
    requires
        p.mode == 1 || p.mode == 2,
        0 < (if dir == Direction::Up || dir == Direction::Down {
            p.step_size_y
        } else {
            p.step_size_x
        }) < i32::MAX,
    ensures
        ({
            let vertical = dir == Direction::Up || dir == Direction::Down;
            let step = if vertical {
                p.step_size_y
            } else {
                p.step_size_x
            };
            let min_step = if vertical {
                p.min_step_size_y
            } else {
                p.min_step_size_x
            };
            let (q, evs) = move_spec(p, dir, log_active);
            let s = if vertical {
                q.step_size_y
            } else {
                q.step_size_x
            };
            &&& 0 < s
            &&& p.mode == 1 ==> s == step
            &&& p.mode == 2 ==> s == if (step + 1) / 2 < min_step {
                min_step as int
            } else {
                (step + 1) / 2
            }
            &&& evs.len() == 1
            &&& evs[0] == MouseEvent::Relative {
                axis: if vertical {
                    RelAxis::Y
                } else {
                    RelAxis::X
                },
                value: if dir == Direction::Up || dir == Direction::Left {
                    -s
                } else {
                    s as int
                } as i32,
            }
        }),
{
}

/// Releasing logarithmic mode restores the configured distances: whatever
/// mode it falls back to, the step sizes and scroll distances afterwards
/// are the defaults', and nothing else but the mode changes.
pub proof fn lemma_logarithmic_off_restores_steps(p: Props, active: Set<Behavior>, defaults: Props)
    ensures
        ({
            let q = dispatch_spec(Behavior::LogarithmicModeOff, p, active, defaults).0;
            &&& q.step_size_x == defaults.step_size_x
            &&& q.step_size_y == defaults.step_size_y
            &&& q.scroll_dist_x == defaults.scroll_dist_x
            &&& q.scroll_dist_y == defaults.scroll_dist_y
            &&& q == Props {
                mode: q.mode,
                step_size_x: defaults.step_size_x,
                step_size_y: defaults.step_size_y,
                scroll_dist_x: defaults.scroll_dist_x,
                scroll_dist_y: defaults.scroll_dist_y,
                ..p
            }
        }),
{
}

/// After releasing logarithmic mode while linear mode is held, a move goes
/// by the configured step again, however far logarithmic mode halved it.
pub proof fn lemma_linear_after_logarithmic(p: Props, active: Set<Behavior>, defaults: Props, dir: Direction, log_active: bool)
    requires
        p.mode == 2,
        active.contains(Behavior::LinearModeOn),
    ensures
        ({
            let q = dispatch_spec(Behavior::LogarithmicModeOff, p, active, defaults).0;
            let evs = move_spec(q, dir, log_active).1;
            let step = if dir == Direction::Up || dir == Direction::Down {
                defaults.step_size_y
            } else {
                defaults.step_size_x
            };
            &&& q.mode == 1
            &&& 0 < step < i32::MAX ==> evs == seq![
                MouseEvent::Relative {
                    axis: if dir == Direction::Up || dir == Direction::Down {
                        RelAxis::Y
                    } else {
                        RelAxis::X
                    },
                    value: if dir == Direction::Up || dir == Direction::Left {
                        -step
                    } else {
                        step as int
                    } as i32,
                },
            ]
        }),
{
    let q = dispatch_spec(Behavior::LogarithmicModeOff, p, active, defaults).0;
    let step = if dir == Direction::Up || dir == Direction::Down {
        defaults.step_size_y
    } else {
        defaults.step_size_x
    };
    if 0 < step < i32::MAX {
        lemma_move_direction(q, dir, log_active);
        assert(move_spec(q, dir, log_active).1 =~= seq![move_spec(q, dir, log_active).1[0]]);
    }
}

} // verus!
