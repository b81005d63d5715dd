//! Which keys are held: physically (as the keyboard reports them) and
//! logically (after rewiring), and whether a held key's press was grabbed.
use vstd::prelude::*;
use crate::config::KEYCODE_MAX;
use crate::text::starts_with;

verus! {

/// A key event as a keyboard reports it: its evdev event type, scancode
/// and value (0 release, 1 press, 2 repeat).
#[derive(Clone, Copy, PartialEq, Eq, Debug, Structural)]
pub struct KeyEvent {
    pub event_type: u16,
    pub code: u16,
    pub value: i32,
}

/// The evdev event type of key events.
pub const EV_KEY: u16 = 1;

/// Press state of the keys whose scancode is at most `KEYCODE_MAX`.
pub struct PressState {
    /// Physical key `k` is held, before rewiring.
    pub physical: Vec<bool>,
    /// Logical key `k` is held (after rewiring), and its press was grabbed.
    pub logical: Vec<(bool, bool)>,
}

/// The held flags of a logical press table.
pub open spec fn held(logical: Seq<(bool, bool)>) -> Seq<bool> {
    Seq::new(logical.len(), |i: int| logical[i].0)
}

/// Every key of `combo` is `exclude` or is held in `state` (a key outside
/// the table counts as not held).
pub open spec fn all_held(state: Seq<bool>, combo: Seq<usize>, exclude: Option<usize>) -> bool {
    forall|i: int|
        0 <= i < combo.len() ==> (exclude == Some(#[trigger] combo[i]) || (combo[i] < state.len()
            && state[combo[i] as int]))
}

/// `state` with key `k` set to `down`, when `k` is in the table.
pub open spec fn set_held(state: Seq<bool>, k: usize, down: bool) -> Seq<bool> {
    if k < state.len() {
        state.update(k as int, down)
    } else {
        state
    }
}

/// The logical table after a key event for `k`: its held flag follows the event.
pub open spec fn set_logical_held(state: Seq<(bool, bool)>, k: usize, down: bool) -> Seq<(
    bool,
    bool,
)> {
    if k < state.len() {
        state.update(k as int, (down, state[k as int].1))
    } else {
        state
    }
}

/// The logical table and grab decision after `update_grab_state`: on a press
/// the key remembers `grab`; on a release the remembered decision is handed
/// back and forgotten. Keys outside the table change nothing.
pub open spec fn grab_update(state: Seq<(bool, bool)>, k: usize, value: i32, grab: bool) -> (Seq<
    (bool, bool),
>, bool) {
    if k >= state.len() {
        (state, grab)
    } else if value > 0 {
        (state.update(k as int, (state[k as int].0, grab)), grab)
    } else {
        (state.update(k as int, (state[k as int].0, false)), state[k as int].1)
    }
}

impl PressState {
    pub open spec fn wf(&self) -> bool {
        &&& self.physical@.len() == KEYCODE_MAX + 1
        &&& self.logical@.len() == KEYCODE_MAX + 1
    }

    /// No key held, nothing grabbed.
    pub fn new() -> (r: PressState)
        ensures
            r.wf(),
            forall|k: int| 0 <= k <= KEYCODE_MAX ==> !r.physical@[k] && r.logical@[k] == (
            false,
            false,
            ),
    {
        let mut physical: Vec<bool> = Vec::new();
        let mut logical: Vec<(bool, bool)> = Vec::new();
        let mut i: usize = 0;
        while i <= KEYCODE_MAX
            invariant
                i <= KEYCODE_MAX + 1,
                physical@.len() == i,
                logical@.len() == i,
                forall|k: int| 0 <= k < i ==> !physical@[k] && logical@[k] == (false, false),
            decreases KEYCODE_MAX + 1 - i,
        {
            physical.push(false);
            logical.push((false, false));
            i = i + 1;
        }
        PressState { physical, logical }
    }

    /// Whether every key of `combo` other than `exclude` is physically held.
    pub fn physically_all_pressed(&self, combo: &[usize], exclude: Option<usize>) -> (r: bool)
        ensures
            r == all_held(self.physical@, combo@, exclude),
    {
        let mut i: usize = 0;
        while i < combo.len()
            invariant
                i <= combo@.len(),
                all_held(self.physical@, combo@.subrange(0, i as int), exclude),
            decreases combo@.len() - i,
        {
            let k = combo[i];
            let ok = match exclude {
                Some(e) => e == k,
                None => false,
            } || (k < self.physical.len() && self.physical[k]);
            if !ok {
                assert(combo@.subrange(0, combo@.len() as int)[i as int] == k);
                assert(combo@.subrange(0, combo@.len() as int) =~= combo@);
                return false;
            }
            proof {
                let next = combo@.subrange(0, i + 1);
                assert forall|j: int| 0 <= j < next.len() implies (exclude == Some(#[trigger] next[j])
                    || (next[j] < self.physical@.len() && self.physical@[next[j] as int])) by {
                    if j < i {
                        assert(next[j] == combo@.subrange(0, i as int)[j]);
                    }
                }
            }
            i = i + 1;
        }
        assert(combo@.subrange(0, combo@.len() as int) =~= combo@);
        true
    }

    /// Whether every key of `combo` other than `exclude` is logically held.
    pub fn logically_all_pressed(&self, combo: &[usize], exclude: Option<usize>) -> (r: bool)
        ensures
            r == all_held(held(self.logical@), combo@, exclude),
    {
        let mut i: usize = 0;
        while i < combo.len()
            invariant
                i <= combo@.len(),
                all_held(held(self.logical@), combo@.subrange(0, i as int), exclude),
            decreases combo@.len() - i,
        {
            let k = combo[i];
            let ok = match exclude {
                Some(e) => e == k,
                None => false,
            } || (k < self.logical.len() && self.logical[k].0);
            if !ok {
                assert(combo@.subrange(0, combo@.len() as int)[i as int] == k);
                assert(combo@.subrange(0, combo@.len() as int) =~= combo@);
                return false;
            }
            proof {
                let next = combo@.subrange(0, i + 1);
                let h = held(self.logical@);
                assert forall|j: int| 0 <= j < next.len() implies (exclude == Some(#[trigger] next[j])
                    || (next[j] < h.len() && h[next[j] as int])) by {
                    if j < i {
                        assert(next[j] == combo@.subrange(0, i as int)[j]);
                    }
                }
            }
            i = i + 1;
        }
        assert(combo@.subrange(0, combo@.len() as int) =~= combo@);
        true
    }

    /// Records a physical key event: key `key_code` is held iff `key_value > 0`.
    pub fn update_physical_presss_state(&mut self, key_code: usize, key_value: i32)
        requires
            old(self).wf(),
        ensures
            final(self).wf(),
            final(self).physical@ == set_held(old(self).physical@, key_code, key_value > 0),
            final(self).logical@ == old(self).logical@,
    {
        if key_code < self.physical.len() {
            self.physical.set(key_code, key_value > 0);
        }
    }

    /// Records a logical key event: key `key_code` is held iff `key_value > 0`.
    pub fn update_logical_press_state(&mut self, key_code: usize, key_value: i32)
        requires
            old(self).wf(),
        ensures
            final(self).wf(),
            final(self).logical@ == set_logical_held(old(self).logical@, key_code, key_value > 0),
            final(self).physical@ == old(self).physical@,
    {
        if key_code < self.logical.len() {
            let grabbed = self.logical[key_code].1;
            self.logical.set(key_code, (key_value > 0, grabbed));
        }
    }

    /// On a press, remembers whether it was grabbed; on a release, sets
    /// `should_grab` to what the press decided and forgets it.
    pub fn update_grab_state(&mut self, key_code: usize, key_value: i32, should_grab: &mut bool)
        requires
            old(self).wf(),
        ensures
            final(self).wf(),
            (final(self).logical@, *final(should_grab)) == grab_update(
                old(self).logical@,
                key_code,
                key_value,
                *old(should_grab),
            ),
            final(self).physical@ == old(self).physical@,
    {
        if key_code >= self.logical.len() {
            return;
        }
        let slot = self.logical[key_code];
        if key_value > 0 {
            self.logical.set(key_code, (slot.0, *should_grab));
        } else {
            *should_grab = slot.1;
            self.logical.set(key_code, (slot.0, false));
        }
    }

    /// Forgets every held key and grab decision.
    pub fn clear_press_state(&mut self)
        requires
            old(self).wf(),
        ensures
            final(self).wf(),
            forall|k: int|
                0 <= k <= KEYCODE_MAX ==> !final(self).physical@[k] && final(self).logical@[k] == (
                false,
                false,
                ),
    {
        let mut i: usize = 0;
        while i <= KEYCODE_MAX
            invariant
                i <= KEYCODE_MAX + 1,
                self.wf(),
                forall|k: int|
                    0 <= k < i ==> !self.physical@[k] && self.logical@[k] == (false, false),
            decreases KEYCODE_MAX + 1 - i,
        {
            self.physical.set(i, false);
            self.logical.set(i, (false, false));
            i = i + 1;
        }
    }
}

/// Whether a device with this name is one this program created itself
/// (its virtual devices are named `bincur...`); such devices are never
/// treated as keyboards.
pub fn is_own_device(name: Option<&str>) -> (r: bool)
    ensures
        r == (name matches Some(n) && "bincur"@.len() <= n@.len() && n@.subrange(
            0,
            "bincur"@.len() as int,
        ) == "bincur"@),
{
    match name {
        Some(n) => starts_with(n, "bincur"),
        None => false,
    }
}

/// What the library needs to know of an input device found on the
/// system: the name it reports, and whether it has the keys A, ENTER and
/// SPACE.
pub struct DeviceInfo {
    pub name: Option<String>,
    pub keyboard: bool,
}

/// The reported name of a device, as text.
pub open spec fn name_view(d: DeviceInfo) -> Option<Seq<char>> {
    match d.name {
        Some(n) => Some(n@),
        None => None,
    }
}

/// A name of one of this program's own virtual devices (`bincur...`).
pub open spec fn own_name(name: Option<Seq<char>>) -> bool {
    name matches Some(n) && "bincur"@.len() <= n.len() && n.subrange(0, "bincur"@.len() as int)
        == "bincur"@
}

/// The positions, in order, of the found devices that are keyboards and
/// not this program's own.
pub open spec fn scan_spec(found: Seq<DeviceInfo>) -> Seq<usize>
    decreases found.len(),
{
    if found.len() == 0 {
        Seq::empty()
    } else {
        let rest = scan_spec(found.drop_last());
        let d = found.last();
        if d.keyboard && !own_name(name_view(d)) {
            rest.push((found.len() - 1) as usize)
        } else {
            rest
        }
    }
}

/// Picks the keyboards among the found devices (see `scan_spec`): the
/// positions of those to keep, in order.
pub fn scan(found: &Vec<DeviceInfo>) -> (r: Vec<usize>)
    ensures
        r@ == scan_spec(found@),
{
    let mut kept: Vec<usize> = Vec::new();
    let mut i: usize = 0;
    assert(found@.take(0) =~= Seq::<DeviceInfo>::empty());
    while i < found.len()
        invariant
            i <= found@.len(),
            kept@ == scan_spec(found@.take(i as int)),
        decreases found@.len() - i,
    {
        assert(found@.take(i + 1).drop_last() =~= found@.take(i as int));
        assert(found@.take(i + 1).last() == found@[i as int]);
        let own = match &found[i].name {
            Some(n) => is_own_device(Some(n.as_str())),
            None => is_own_device(None),
        };
        if found[i].keyboard && !own {
            kept.push(i);
        }
        i = i + 1;
    }
    assert(found@.take(found@.len() as int) =~= found@);
    kept
}

/// The names the keyboards report, in order.
pub fn names(keyboards: &Vec<DeviceInfo>) -> (r: Vec<Option<String>>)
    ensures
        r@.len() == keyboards@.len(),
        forall|i: int|
            0 <= i < keyboards@.len() ==> #[trigger] name_view(keyboards@[i]) == match r@[i] {
                Some(n) => Some(n@),
                None => None::<Seq<char>>,
            },
{
    let mut out: Vec<Option<String>> = Vec::new();
    let mut i: usize = 0;
    while i < keyboards.len()
        invariant
            i <= keyboards@.len(),
            out@.len() == i,
            forall|j: int|
                0 <= j < i ==> #[trigger] name_view(keyboards@[j]) == match out@[j] {
                    Some(n) => Some(n@),
                    None => None::<Seq<char>>,
                },
        decreases keyboards@.len() - i,
    {
        let name = match &keyboards[i].name {
            Some(n) => Some(n.clone()),
            None => None,
        };
        out.push(name);
        i = i + 1;
    }
    out
}


/// A release is grabbed exactly when its press was: after a press of `k`
/// records the grab decision `g`, the release of `k` hands `g` back (and
/// clears it), whatever the release itself would have decided.
pub proof fn lemma_release_follows_press(state: Seq<(bool, bool)>, k: usize, down: i32, up: i32, g: bool, x: bool)
    requires
        k < state.len(),
        down > 0,
        up <= 0,
    ensures
        ({
            let pressed = grab_update(set_logical_held(state, k, true), k, down, g).0;
            let released = grab_update(set_logical_held(pressed, k, false), k, up, x);
            &&& released.1 == g
            &&& released.0[k as int] == (false, false)
        }),
{
}

/// A key event is recorded: afterwards the key counts as held exactly when
/// the event's value is positive, and no other key changes.
pub proof fn lemma_press_recorded(state: Seq<bool>, k: usize, value: i32)
    requires
        k < state.len(),
    ensures
        all_held(set_held(state, k, value > 0), seq![k], None) == (value > 0),
        forall|j: int| 0 <= j < state.len() && j != k ==> set_held(state, k, value > 0)[j] == state[j],
{
    let s2 = set_held(state, k, value > 0);
    if value > 0 {
        assert(all_held(s2, seq![k], None));
    } else {
        assert(seq![k][0] == k);
    }
}

} // verus!
