//! The mouse emulator: what each key event does to the press state, the
//! active behaviors and the mouse, and which actions it asks for (mouse
//! events, passing the key on, exiting, resetting).
use vstd::prelude::*;
use arrayvec::ArrayVec;
use crate::config::KEYCODE_MAX;
use crate::config::keymap::{combos_view, first_rewired, keymap_reverse, rewire_event, rewire_reverse, KeyConfig};
use crate::config::vmouse::Props;
use crate::device::keyboards::{
    all_held, grab_update, held, set_held, set_logical_held, KeyEvent, PressState, EV_KEY,
};
use crate::device::vmouse::{
    active_set, dispatch_spec, dispatch_view, index_of, inverse_spec, is_mode_trigger,
    lemma_index_of, longest_actives, longest_spec, mark_active, mark_inactive, mode_level, ActiveSet,
    Behavior, DispatchView, Dispatched, MouseEvent, VAR_COUNT,
};
use crate::outside::{
    behaviors17, behaviors17_extend, behaviors17_new, behaviors17_push, behaviors17_slice,
    mouse_events2,
};
use crate::text::same_text;

verus! {

/// What the caller must do after a key event, in order.
pub enum Action {
    /// Emit these events on the virtual mouse (then a report).
    Mouse(ArrayVec<MouseEvent, 2>),
    /// Forward this key event to the virtual keyboard.
    PassThrough(KeyEvent),
    /// Terminate the program.
    Exit,
    /// Start over: rescan the keyboards and reload the configuration.
    Reset,
}

/// The meaning of an action.
pub enum ActionView {
    Mouse(Seq<MouseEvent>),
    PassThrough(KeyEvent),
    Exit,
    Reset,
}

pub open spec fn action_view(a: Action) -> ActionView {
    match a {
        Action::Mouse(v) => ActionView::Mouse(mouse_events2(v)),
        Action::PassThrough(e) => ActionView::PassThrough(e),
        Action::Exit => ActionView::Exit,
        Action::Reset => ActionView::Reset,
    }
}

pub open spec fn actions_view(v: Seq<Action>) -> Seq<ActionView> {
    Seq::new(v.len(), |i: int| action_view(v[i]))
}

/// The number of mode triggers in a list of behaviors.
pub open spec fn mode_entries(s: Seq<Behavior>) -> nat
    decreases s.len(),
{
    if s.len() == 0 {
        0
    } else {
        mode_entries(s.drop_last()) + if is_mode_trigger(s.last()) {
            1nat
        } else {
            0nat
        }
    }
}

/// No key of any keyboard is related to more mode triggers than the
/// dispatch queue holds (17 behaviors).
pub open spec fn queue_fits(cfg: KeyConfig) -> bool {
    forall|d: int, k: int|
        0 <= d < cfg.keyboards() && 0 <= k <= KEYCODE_MAX ==> mode_entries(
            #[trigger] keymap_reverse(cfg.keymap()[d])[k],
        ) <= VAR_COUNT
}

/// The number of set flags among the first `n`.
pub open spec fn flags_set(f: Seq<bool>, n: int) -> nat
    decreases n,
{
    if n <= 0 {
        0
    } else {
        flags_set(f, n - 1) + if f[n - 1] {
            1nat
        } else {
            0nat
        }
    }
}

/// A key press: each related behavior whose combination is now logically
/// held becomes active; mode triggers are also queued for dispatch (and
/// then count as a mode change), other behaviors become active only while
/// a mode is on. Returns the active flags, the queue, and whether a mode
/// trigger was queued.
pub open spec fn keydown_collect(
    cfg: KeyConfig,
    d: int,
    logical: Seq<bool>,
    mode: u8,
    active: Seq<bool>,
    related: Seq<Behavior>,
) -> (Seq<bool>, Seq<Behavior>, bool)
    decreases related.len(),
{
    if related.len() == 0 {
        (active, Seq::empty(), false)
    } else {
        let (a, q, changed) = keydown_collect(cfg, d, logical, mode, active, related.drop_last());
        let b = related.last();
        let combo = cfg.combo(d, b);
        if combo.len() > 0 && all_held(logical, combo, None) {
            if is_mode_trigger(b) {
                (a.update(index_of(b), true), q.push(b), true)
            } else if mode != 0 {
                (a.update(index_of(b), true), q, changed)
            } else {
                (a, q, changed)
            }
        } else {
            (a, q, changed)
        }
    }
}

/// A key release: each related behavior that was active becomes inactive
/// and its inverse is queued.
pub open spec fn keyup_collect(active: Seq<bool>, related: Seq<Behavior>) -> (Seq<bool>, Seq<Behavior>)
    decreases related.len(),
{
    if related.len() == 0 {
        (active, Seq::empty())
    } else {
        let (a, q) = keyup_collect(active, related.drop_last());
        let b = related.last();
        if a[index_of(b)] {
            (a.update(index_of(b), false), q.push(inverse_spec(b)))
        } else {
            (a, q)
        }
    }
}

/// Dispatches the queue in order: the mouse properties after it, the
/// actions asked for, whether the key is grabbed, and whether an `Exit` or
/// `Reset` stopped it (no later behavior is dispatched then).
pub open spec fn dispatch_all(queue: Seq<Behavior>, p: Props, active: Set<Behavior>, defaults: Props) -> (Props, Seq<ActionView>, bool, bool)
    decreases queue.len(),
{
    if queue.len() == 0 {
        (p, Seq::empty(), false, false)
    } else {
        let (p1, acts, grab, stopped) = dispatch_all(queue.drop_last(), p, active, defaults);
        if stopped {
            (p1, acts, grab, true)
        } else {
            let (p2, out) = dispatch_spec(queue.last(), p1, active, defaults);
            match out {
                DispatchView::Exit => (p2, acts.push(ActionView::Exit), grab, true),
                DispatchView::Reset => (p2, acts.push(ActionView::Reset), grab, true),
                DispatchView::Grab(g) => (p2, acts, grab || g, false),
                DispatchView::Emit(evs) => (p2, acts.push(ActionView::Mouse(evs)), true, false),
            }
        }
    }
}

/// The state the emulator's behavior depends on.
pub struct EmuState {
    pub physical: Seq<bool>,
    pub logical: Seq<(bool, bool)>,
    pub active: Seq<bool>,
    pub props: Props,
}

/// One key event of keyboard `d`: record its physical key, rewire it,
/// record its logical key; a key beyond the keymap is passed on. Otherwise
/// a press activates the related behaviors (see `keydown_collect`) and, if
/// no mode trigger was queued, queues the longest active behaviors; a
/// release deactivates them and queues their inverses. The queue is
/// dispatched; unless that stopped, the grab decision is recorded (a
/// release takes the decision of its press) and an ungrabbed event is
/// passed on. Events of other types are ignored.
pub open spec fn key_event_spec(cfg: KeyConfig, defaults: Props, d: int, s: EmuState, ev: KeyEvent) -> (EmuState, Seq<ActionView>) {
    if ev.event_type != EV_KEY {
        (s, Seq::empty())
    } else {
        let physical = set_held(s.physical, ev.code as usize, ev.value > 0);
        let ev2 = rewire_event(cfg.rewiring(), physical, d, ev);
        let code = ev2.code as usize;
        let value = ev2.value;
        let logical = set_logical_held(s.logical, code, value > 0);
        if code > KEYCODE_MAX {
            (
                EmuState { physical, logical, ..s },
                seq![ActionView::PassThrough(ev2)],
            )
        } else {
            let related = keymap_reverse(cfg.keymap()[d])[code as int];
            let (active, queue) = if value > 0 {
                let (a, q, changed) = keydown_collect(
                    cfg,
                    d,
                    held(logical),
                    s.props.mode,
                    s.active,
                    related,
                );
                (
                    a,
                    if changed {
                        q
                    } else {
                        q + longest_spec(cfg, d, active_set(a))
                    },
                )
            } else {
                keyup_collect(s.active, related)
            };
            let (props, acts, grab, stopped) = dispatch_all(
                queue,
                s.props,
                active_set(active),
                defaults,
            );
            if stopped {
                (EmuState { physical, logical, active, props }, acts)
            } else {
                let (logical2, grab2) = grab_update(logical, code, value, grab);
                (
                    EmuState { physical, logical: logical2, active, props },
                    if grab2 {
                        acts
                    } else {
                        acts.push(ActionView::PassThrough(ev2))
                    },
                )
            }
        }
    }
}

/// The actions end with `Exit` or `Reset`.
pub open spec fn stops(acts: Seq<ActionView>) -> bool {
    acts.len() > 0 && (acts.last() is Exit || acts.last() is Reset)
}

/// A batch of key events of keyboard `d`, handled in order until one asks
/// to exit or reset.
pub open spec fn events_spec(cfg: KeyConfig, defaults: Props, d: int, s: EmuState, evs: Seq<KeyEvent>) -> (EmuState, Seq<ActionView>)
    decreases evs.len(),
{
    if evs.len() == 0 {
        (s, Seq::empty())
    } else {
        let (s1, a1) = events_spec(cfg, defaults, d, s, evs.drop_last());
        if stops(a1) {
            (s1, a1)
        } else {
            let (s2, a2) = key_event_spec(cfg, defaults, d, s1, evs.last());
            (s2, a1 + a2)
        }
    }
}

/// The key bindings and the state of the emulated mouse.
pub struct MouseEmulator {
    pub config: KeyConfig,
    pub press: PressState,
    pub active: ActiveSet,
    pub props: Props,
    pub defaults: Props,
}

impl MouseEmulator {
    pub open spec fn wf(&self) -> bool {
        &&& self.config.wf()
        &&& queue_fits(self.config)
        &&& self.press.wf()
        &&& self.active.wf()
    }

    pub open spec fn state(&self) -> EmuState {
        EmuState {
            physical: self.press.physical@,
            logical: self.press.logical@,
            active: self.active.flags@,
            props: self.props,
        }
    }
}


proof fn lemma_mode_entries_prefix(s: Seq<Behavior>, k: int)
    requires
        0 <= k <= s.len(),
    ensures
        mode_entries(s.take(k)) <= mode_entries(s),
    decreases s.len() - k,
{
    if k < s.len() {
        assert(s.take(k + 1).drop_last() =~= s.take(k));
        lemma_mode_entries_prefix(s, k + 1);
    } else {
        assert(s.take(k) =~= s);
    }
}

proof fn lemma_keydown_shape(
    cfg: KeyConfig,
    d: int,
    logical: Seq<bool>,
    mode: u8,
    active: Seq<bool>,
    related: Seq<Behavior>,
)
    requires
        active.len() == VAR_COUNT,
    ensures
        keydown_collect(cfg, d, logical, mode, active, related).0.len() == active.len(),
        keydown_collect(cfg, d, logical, mode, active, related).1.len() <= mode_entries(related),
        keydown_collect(cfg, d, logical, mode, active, related).2 <==> keydown_collect(
            cfg,
            d,
            logical,
            mode,
            active,
            related,
        ).1.len() > 0,
    decreases related.len(),
{
    if related.len() > 0 {
        lemma_keydown_shape(cfg, d, logical, mode, active, related.drop_last());
        lemma_index_of(related.last());
    }
}

proof fn lemma_flags_set_bound(f: Seq<bool>, n: int)
    requires
        0 <= n,
    ensures
        flags_set(f, n) <= n,
    decreases n,
{
    if n > 0 {
        lemma_flags_set_bound(f, n - 1);
    }
}

proof fn lemma_flags_set_clear(f: Seq<bool>, i: int, n: int)
    requires
        0 <= i < n <= f.len(),
        f[i],
    ensures
        flags_set(f.update(i, false), n) + 1 == flags_set(f, n),
    decreases n,
{
    if n - 1 > i {
        lemma_flags_set_clear(f, i, n - 1);
    } else {
        lemma_flags_set_same(f, f.update(i, false), i);
    }
}

proof fn lemma_flags_set_same(f: Seq<bool>, g: Seq<bool>, n: int)
    requires
        0 <= n <= f.len(),
        n <= g.len(),
        forall|j: int| 0 <= j < n ==> f[j] == g[j],
    ensures
        flags_set(f, n) == flags_set(g, n),
    decreases n,
{
    if n > 0 {
        lemma_flags_set_same(f, g, n - 1);
    }
}

proof fn lemma_keyup_shape(active: Seq<bool>, related: Seq<Behavior>)
    requires
        active.len() == VAR_COUNT,
    ensures
        keyup_collect(active, related).0.len() == VAR_COUNT,
        keyup_collect(active, related).1.len() + flags_set(
            keyup_collect(active, related).0,
            VAR_COUNT as int,
        ) <= flags_set(active, VAR_COUNT as int),
    decreases related.len(),
{
    if related.len() > 0 {
        lemma_keyup_shape(active, related.drop_last());
        let (a, q) = keyup_collect(active, related.drop_last());
        let b = related.last();
        lemma_index_of(b);
        if a[index_of(b)] {
            lemma_flags_set_clear(a, index_of(b), VAR_COUNT as int);
        }
    }
}

pub(crate) proof fn lemma_dispatch_stays_stopped(q: Seq<Behavior>, k: int, p: Props, active: Set<Behavior>, defaults: Props)
    requires
        0 <= k <= q.len(),
        dispatch_all(q.take(k), p, active, defaults).3,
    ensures
        dispatch_all(q, p, active, defaults) == dispatch_all(q.take(k), p, active, defaults),
    decreases q.len() - k,
{
    if k < q.len() {
        assert(q.take(k + 1).drop_last() =~= q.take(k));
        lemma_dispatch_stays_stopped(q, k + 1, p, active, defaults);
    } else {
        assert(q.take(k) =~= q);
    }
}

/// Whether no key of any keyboard is related to more mode triggers than
/// the dispatch queue holds.
pub fn dispatch_queue_fits(config: &KeyConfig) -> (r: bool)
    requires
        config.wf(),
    ensures
        r == queue_fits(*config),
{
    let mut d: usize = 0;
    while d < config.keymap_rvs.len()
        invariant
            config.wf(),
            d <= config.keyboards(),
            forall|e: int, k: int|
                0 <= e < d && 0 <= k <= KEYCODE_MAX ==> mode_entries(
                    #[trigger] keymap_reverse(config.keymap()[e])[k],
                ) <= VAR_COUNT,
        decreases config.keyboards() - d,
    {
        let mut k: usize = 0;
        while k <= KEYCODE_MAX
            invariant
                config.wf(),
                d < config.keyboards(),
                k <= KEYCODE_MAX + 1,
                forall|e: int, j: int|
                    0 <= e < d && 0 <= j <= KEYCODE_MAX ==> mode_entries(
                        #[trigger] keymap_reverse(config.keymap()[e])[j],
                    ) <= VAR_COUNT,
                forall|j: int|
                    0 <= j < k ==> mode_entries(
                        #[trigger] keymap_reverse(config.keymap()[d as int])[j],
                    ) <= VAR_COUNT,
            decreases KEYCODE_MAX + 1 - k,
        {
            let related = config.get_related_behaviors(d, k).unwrap();
            let ghost rs = related@;
            let mut count: usize = 0;
            let mut i: usize = 0;
            while i < related.len()
                invariant
                    i <= rs.len(),
                    rs == related@,
                    count == mode_entries(rs.take(i as int)),
                    count <= i,
                decreases rs.len() - i,
            {
                assert(rs.take(i + 1).drop_last() =~= rs.take(i as int));
                if related[i].is_mode_trigger() {
                    count = count + 1;
                }
                i = i + 1;
            }
            assert(rs.take(rs.len() as int) =~= rs);
            if count > VAR_COUNT {
                return false;
            }
            k = k + 1;
        }
        d = d + 1;
    }
    true
}

impl MouseEmulator {
    /// An emulator for these bindings: no key held, no behavior active, the
    /// mouse properties set to the defaults.
    pub fn new(config: KeyConfig, defaults: Props) -> (r: MouseEmulator)
        requires
            config.wf(),
            queue_fits(config),
        ensures
            r.wf(),
            r.config == config,
            r.defaults == defaults,
            r.props == defaults,
            r.active@ == Set::<Behavior>::empty(),
            forall|k: int|
                0 <= k <= KEYCODE_MAX ==> !r.press.physical@[k] && r.press.logical@[k] == (
                false,
                false,
                ),
    {
        MouseEmulator {
            config,
            press: PressState::new(),
            active: ActiveSet::new(),
            props: crate::device::vmouse::initialize(&defaults),
            defaults,
        }
    }

    /// Handles one key event of keyboard `kbd_idx` (see `key_event_spec`).
    pub fn handle_key_event(&mut self, kbd_idx: usize, ev: KeyEvent) -> (r: Vec<Action>)
        requires
            old(self).wf(),
            kbd_idx < old(self).config.keyboards(),
        ensures
            final(self).wf(),
            final(self).config == old(self).config,
            final(self).defaults == old(self).defaults,
            (final(self).state(), actions_view(r@)) == key_event_spec(
                old(self).config,
                old(self).defaults,
                kbd_idx as int,
                old(self).state(),
                ev,
            ),
    {
        let ghost s0 = self.state();
        let ghost cfg = self.config;
        let mut actions: Vec<Action> = Vec::new();
        if ev.event_type != EV_KEY {
            assert(actions_view(actions@) =~= Seq::<ActionView>::empty());
            return actions;
        }
        self.press.update_physical_presss_state(ev.code as usize, ev.value);
        let ev2 = self.config.rewire(ev, kbd_idx, &self.press);
        let code = ev2.code as usize;
        let value = ev2.value;
        self.press.update_logical_press_state(code, value);
        let related = match self.config.get_related_behaviors(kbd_idx, code) {
            Some(rel) => rel,
            None => {
                actions.push(Action::PassThrough(ev2));
                assert(actions_view(actions@) =~= seq![ActionView::PassThrough(ev2)]);
                return actions;
            },
        };
        let ghost rs = related@;
        let ghost press1 = self.press;
        let ghost defaults0 = self.defaults;
        let ghost logical = self.press.logical@;
        let ghost a0 = self.active.flags@;
        let ghost p0 = self.props;
        proof {
            assert(rs == keymap_reverse(cfg.keymap()[kbd_idx as int])[code as int]);
            assert(mode_entries(rs) <= VAR_COUNT);
        }
        let mut to_dispatch = behaviors17_new();
        if value > 0 {
            let mut mode_changed = false;
            let mut i: usize = 0;
            assert(rs.take(0) =~= Seq::<Behavior>::empty());
            while i < related.len()
                invariant
                    i <= rs.len(),
                    rs == related@,
                    mode_entries(rs) <= VAR_COUNT,
                    self.config == cfg,
                    cfg.wf(),
                    queue_fits(cfg),
                    kbd_idx < cfg.keyboards(),
                    self.press == press1,
                    press1.wf(),
                    press1.logical@ == logical,
                    self.props == p0,
                    self.defaults == defaults0,
                    a0.len() == VAR_COUNT,
                    self.active.wf(),
                    (self.active.flags@, behaviors17(to_dispatch), mode_changed) == keydown_collect(
                        cfg,
                        kbd_idx as int,
                        held(logical),
                        p0.mode,
                        a0,
                        rs.take(i as int),
                    ),
                decreases rs.len() - i,
            {
                proof {
                    assert(rs.take(i + 1).drop_last() =~= rs.take(i as int));
                    assert(rs.take(i + 1).last() == rs[i as int]);
                    lemma_keydown_shape(
                        cfg,
                        kbd_idx as int,
                        held(logical),
                        p0.mode,
                        a0,
                        rs.take(i + 1),
                    );
                    lemma_mode_entries_prefix(rs, i + 1);
                    lemma_keydown_shape(
                        cfg,
                        kbd_idx as int,
                        held(logical),
                        p0.mode,
                        a0,
                        rs.take(i as int),
                    );
                }
                let b = related[i];
                match self.config.get_combo(kbd_idx, b) {
                    None => {},
                    Some(combo) => {
                        if self.press.logically_all_pressed(combo.as_slice(), None) {
                            if b.is_mode_trigger() {
                                mode_changed = true;
                                mark_active(&mut self.active, &b);
                                behaviors17_push(&mut to_dispatch, b);
                            } else if self.props.mode != 0 {
                                mark_active(&mut self.active, &b);
                            }
                        }
                    },
                }
                i = i + 1;
            }
            assert(rs.take(rs.len() as int) =~= rs);
            proof {
                lemma_keydown_shape(cfg, kbd_idx as int, held(logical), p0.mode, a0, rs);
            }
            if !mode_changed {
                let longest = longest_actives(&self.active, &self.config, kbd_idx);
                proof {
                    crate::device::vmouse::lemma_longest_fits(
                        cfg,
                        kbd_idx as int,
                        self.active@,
                    );
                }
                behaviors17_extend(&mut to_dispatch, longest);
            }
        } else {
            let mut i: usize = 0;
            assert(rs.take(0) =~= Seq::<Behavior>::empty());
            proof {
                lemma_flags_set_bound(a0, VAR_COUNT as int);
            }
            while i < related.len()
                invariant
                    i <= rs.len(),
                    rs == related@,
                    self.config == cfg,
                    cfg.wf(),
                    queue_fits(cfg),
                    self.press == press1,
                    press1.wf(),
                    self.props == p0,
                    self.defaults == defaults0,
                    self.active.wf(),
                    a0.len() == VAR_COUNT,
                    flags_set(a0, VAR_COUNT as int) <= VAR_COUNT,
                    (self.active.flags@, behaviors17(to_dispatch)) == keyup_collect(
                        a0,
                        rs.take(i as int),
                    ),
                decreases rs.len() - i,
            {
                proof {
                    assert(rs.take(i + 1).drop_last() =~= rs.take(i as int));
                    assert(rs.take(i + 1).last() == rs[i as int]);
                    lemma_keyup_shape(a0, rs.take(i as int));
                    lemma_flags_set_bound(self.active.flags@, VAR_COUNT as int);
                    lemma_index_of(rs[i as int]);
                    if self.active.flags@[index_of(rs[i as int])] {
                        lemma_flags_set_clear(
                            self.active.flags@,
                            index_of(rs[i as int]),
                            VAR_COUNT as int,
                        );
                    }
                }
                let b = related[i];
                if mark_inactive(&mut self.active, &b) {
                    let inv = b.inverse().unwrap();
                    behaviors17_push(&mut to_dispatch, inv);
                }
                i = i + 1;
            }
            assert(rs.take(rs.len() as int) =~= rs);
        }
        let ghost queue = behaviors17(to_dispatch);
        let ghost a1 = self.active@;
        let ghost flags1 = self.active.flags@;
        proof {
            let physical = set_held(s0.physical, ev.code as usize, ev.value > 0);
            assert(press1.physical@ == physical);
            assert(ev2 == rewire_event(cfg.rewiring(), physical, kbd_idx as int, ev));
            assert(logical == set_logical_held(s0.logical, code, value > 0));
            assert(code <= KEYCODE_MAX);
            assert(a0 == s0.active);
            assert(p0 == s0.props);
            let pair = if value > 0 {
                let (a, q, changed) = keydown_collect(
                    cfg,
                    kbd_idx as int,
                    held(logical),
                    s0.props.mode,
                    s0.active,
                    rs,
                );
                (
                    a,
                    if changed {
                        q
                    } else {
                        q + longest_spec(cfg, kbd_idx as int, active_set(a))
                    },
                )
            } else {
                keyup_collect(s0.active, rs)
            };
            assert(pair.0 == self.active.flags@);
            assert(pair.1 == queue);
            assert(a1 == active_set(pair.0));
            assert(defaults0 == old(self).defaults);
            assert(s0 == old(self).state());
            assert(cfg == old(self).config);
        }
        let queue_slice = behaviors17_slice(&to_dispatch);
        let mut grab = false;
        let mut stopped = false;
        let mut j: usize = 0;
        assert(queue.take(0) =~= Seq::<Behavior>::empty());
        assert(actions_view(actions@) =~= Seq::<ActionView>::empty());
        while j < queue_slice.len() && !stopped
            invariant
                j <= queue.len(),
                queue_slice@ == queue,
                self.config == cfg,
                cfg.wf(),
                queue_fits(cfg),
                self.press == press1,
                press1.wf(),
                self.defaults == defaults0,
                self.active.wf(),
                self.active@ == a1,
                self.active.flags@ == flags1,
                (self.props, actions_view(actions@), grab, stopped) == dispatch_all(
                    queue.take(j as int),
                    p0,
                    a1,
                    self.defaults,
                ),
            decreases queue.len() - j,
        {
            proof {
                assert(queue.take(j + 1).drop_last() =~= queue.take(j as int));
                assert(queue.take(j + 1).last() == queue[j as int]);
            }
            let ghost before = actions@;
            let outcome = queue_slice[j].dispatch(&mut self.props, &self.active, &self.defaults);
            match outcome {
                Ok(Dispatched::Exit) => {
                    actions.push(Action::Exit);
                    assert(actions_view(actions@) =~= actions_view(before).push(ActionView::Exit));
                    stopped = true;
                },
                Err(_) => {
                    actions.push(Action::Reset);
                    assert(actions_view(actions@) =~= actions_view(before).push(ActionView::Reset));
                    stopped = true;
                },
                Ok(Dispatched::Grab(g)) => {
                    grab = grab || g;
                },
                Ok(Dispatched::Emit(events)) => {
                    actions.push(Action::Mouse(events));
                    assert(actions_view(actions@) =~= actions_view(before).push(
                        ActionView::Mouse(mouse_events2(events)),
                    ));
                    grab = true;
                },
            }
            j = j + 1;
        }
        if stopped {
            proof {
                lemma_dispatch_stays_stopped(queue, j as int, p0, a1, self.defaults);
                let r = dispatch_all(queue, p0, a1, defaults0);
                assert(r.3);
                assert(self.props == r.0);
                assert(actions_view(actions@) == r.1);
                let spec_r = key_event_spec(cfg, defaults0, kbd_idx as int, s0, ev);
                assert(spec_r.1 == r.1);
                assert(spec_r.0.props == r.0);
                assert(spec_r.0.active == self.active.flags@);
                assert(spec_r.0.physical == self.press.physical@);
                assert(spec_r.0.logical == self.press.logical@);
                assert(spec_r.0 == self.state());
            }
            return actions;
        }
        assert(queue.take(queue.len() as int) =~= queue);
        self.press.update_grab_state(code, value, &mut grab);
        if !grab {
            let ghost before = actions@;
            actions.push(Action::PassThrough(ev2));
            assert(actions_view(actions@) =~= actions_view(before).push(ActionView::PassThrough(ev2)));
        }
        actions
    }
}


proof fn lemma_events_stay_stopped(cfg: KeyConfig, defaults: Props, d: int, s: EmuState, evs: Seq<KeyEvent>, k: int)
    requires
        0 <= k <= evs.len(),
        stops(events_spec(cfg, defaults, d, s, evs.take(k)).1),
    ensures
        events_spec(cfg, defaults, d, s, evs) == events_spec(cfg, defaults, d, s, evs.take(k)),
    decreases evs.len() - k,
{
    if k < evs.len() {
        assert(evs.take(k + 1).drop_last() =~= evs.take(k));
        lemma_events_stay_stopped(cfg, defaults, d, s, evs, k + 1);
    } else {
        assert(evs.take(k) =~= evs);
    }
}

impl MouseEmulator {
    /// Handles a batch of key events of keyboard `kbd_idx` in order, until
    /// one asks to exit or reset (see `events_spec`).
    pub fn emulate_mouse(&mut self, kbd_idx: usize, events: &[KeyEvent]) -> (r: Vec<Action>)
        requires
            old(self).wf(),
            kbd_idx < old(self).config.keyboards(),
        ensures
            final(self).wf(),
            final(self).config == old(self).config,
            final(self).defaults == old(self).defaults,
            (final(self).state(), actions_view(r@)) == events_spec(
                old(self).config,
                old(self).defaults,
                kbd_idx as int,
                old(self).state(),
                events@,
            ),
    {
        let ghost s0 = self.state();
        let ghost cfg = self.config;
        let ghost defaults0 = self.defaults;
        let mut actions: Vec<Action> = Vec::new();
        let mut stopped = false;
        let mut i: usize = 0;
        assert(events@.take(0) =~= Seq::<KeyEvent>::empty());
        assert(actions_view(actions@) =~= Seq::<ActionView>::empty());
        while i < events.len() && !stopped
            invariant
                i <= events@.len(),
                self.wf(),
                self.config == cfg,
                self.defaults == defaults0,
                kbd_idx < cfg.keyboards(),
                stopped == stops(actions_view(actions@)),
                (self.state(), actions_view(actions@)) == events_spec(
                    cfg,
                    defaults0,
                    kbd_idx as int,
                    s0,
                    events@.take(i as int),
                ),
            decreases events@.len() - i,
        {
            proof {
                assert(events@.take(i + 1).drop_last() =~= events@.take(i as int));
                assert(events@.take(i + 1).last() == events@[i as int]);
            }
            let ghost before = actions@;
            let mut more = self.handle_key_event(kbd_idx, events[i]);
            let ghost added = more@;
            actions.append(&mut more);
            assert(actions_view(actions@) =~= actions_view(before) + actions_view(added));
            let n = actions.len();
            stopped = n > 0 && match actions[n - 1] {
                Action::Exit | Action::Reset => true,
                _ => false,
            };
            i = i + 1;
        }
        proof {
            if stopped {
                lemma_events_stay_stopped(cfg, defaults0, kbd_idx as int, s0, events@, i as int);
            } else {
                assert(events@.take(i as int) =~= events@);
            }
        }
        actions
    }
}


/// What the program does, chosen by its first command-line argument.
#[derive(Clone, Copy, PartialEq, Eq, Debug, Structural)]
pub enum Handler {
    /// `-v`: print the version and exit.
    PrintVersion,
    /// `-i`: print the key events of every keyboard, until ESC.
    Inspect,
    /// Any other argument: report it and exit.
    UnknownOption,
    /// No argument: emulate the mouse.
    EmulateMouse,
}

/// The handler the arguments choose, and whether keyboards are grabbed by
/// default (only when emulating the mouse).
pub open spec fn handler_spec(options: Seq<Seq<char>>) -> (Handler, bool) {
    if options.len() == 0 {
        (Handler::EmulateMouse, true)
    } else if options[0] == "-v"@ {
        (Handler::PrintVersion, false)
    } else if options[0] == "-i"@ {
        (Handler::Inspect, false)
    } else {
        (Handler::UnknownOption, false)
    }
}

/// Chooses the handler from the command-line arguments (see
/// `handler_spec`).
pub fn determine_handler(options: &Vec<String>) -> (r: (Handler, bool))
    ensures
        r == handler_spec(crate::text::string_views(options@)),
{
    if options.len() == 0 {
        return (Handler::EmulateMouse, true);
    }
    let first = options[0].as_str();
    assert(crate::text::string_views(options@)[0] == first@);
    if same_text(first, "-v") {
        (Handler::PrintVersion, false)
    } else if same_text(first, "-i") {
        (Handler::Inspect, false)
    } else {
        (Handler::UnknownOption, false)
    }
}


/// The grab setting of a mode-on behavior's mode.
pub open spec fn mode_grab(b: Behavior, p: Props) -> bool {
    match b {
        Behavior::LinearModeOn => p.grab_linear,
        Behavior::LogarithmicModeOn => p.grab_logarithmic,
        _ => p.grab_scroll,
    }
}

/// Hold to trigger, end to end: on a keyboard where key `k` alone triggers
/// a mode (and is not rewired), pressing `k` from the inactive state
/// switches that mode on, releasing it switches back to the inactive mode,
/// and the press and the release are both swallowed (when the mode's grab
/// setting is on) or both passed on.
pub proof fn lemma_hold_mode_key(cfg: KeyConfig, defaults: Props, d: int, s: EmuState, b: Behavior, k: u16)
    requires
        0 <= d < cfg.keyboards(),
        mode_level(b) > 0,
        k <= KEYCODE_MAX,
        keymap_reverse(cfg.keymap()[d])[k as int] == seq![b],
        cfg.combo(d, b) == seq![k as usize],
        rewire_reverse(cfg.rewiring()[d])[k as int] == Seq::<usize>::empty(),
        s.props.mode == 0,
        s.active == Seq::new(VAR_COUNT as nat, |_i: int| false),
        s.physical.len() == KEYCODE_MAX + 1,
        s.logical.len() == KEYCODE_MAX + 1,
    ensures
        ({
            let press = KeyEvent { event_type: EV_KEY, code: k, value: 1 };
            let release = KeyEvent { event_type: EV_KEY, code: k, value: 0 };
            let (s1, a1) = key_event_spec(cfg, defaults, d, s, press);
            let (s2, a2) = key_event_spec(cfg, defaults, d, s1, release);
            &&& s1.props.mode == mode_level(b)
            &&& s2.props.mode == 0
            &&& a1 == if mode_grab(b, s.props) {
                Seq::<ActionView>::empty()
            } else {
                seq![ActionView::PassThrough(press)]
            }
            &&& a2 == if mode_grab(b, s.props) {
                Seq::<ActionView>::empty()
            } else {
                seq![ActionView::PassThrough(release)]
            }
        }),
{
    let press = KeyEvent { event_type: EV_KEY, code: k, value: 1 };
    let release = KeyEvent { event_type: EV_KEY, code: k, value: 0 };
    let related = seq![b];
    lemma_index_of(b);
    reveal_with_fuel(keydown_collect, 2);
    reveal_with_fuel(keyup_collect, 2);
    reveal_with_fuel(dispatch_all, 2);
    assert(related.drop_last() =~= Seq::<Behavior>::empty());
    assert(related.last() == b);
    // press
    let physical1 = set_held(s.physical, k as usize, true);
    assert(rewire_event(cfg.rewiring(), physical1, d, press) == press);
    let logical1 = set_logical_held(s.logical, k as usize, true);
    assert(held(logical1)[k as int]);
    assert(all_held(held(logical1), seq![k as usize], None));
    assert(keydown_collect(cfg, d, held(logical1), 0, s.active, related.drop_last()) == (
        s.active,
        Seq::<Behavior>::empty(),
        false,
    ));
    let (a, q, changed) = keydown_collect(cfg, d, held(logical1), 0, s.active, related);
    assert(a == s.active.update(index_of(b), true));
    assert(q == seq![b]);
    assert(changed);
    assert(q.drop_last() =~= Seq::<Behavior>::empty());
    let (s1, a1) = key_event_spec(cfg, defaults, d, s, press);
    assert(s1.active == a);
    // release
    let physical2 = set_held(s1.physical, k as usize, false);
    assert(rewire_event(cfg.rewiring(), physical2, d, release) == release);
    assert(keyup_collect(s1.active, related.drop_last()) == (s1.active, Seq::<Behavior>::empty()));
    let (a2, q2) = keyup_collect(s1.active, related);
    assert(a2 == a.update(index_of(b), false));
    assert(q2 == seq![crate::device::vmouse::inverse_spec(b)]);
    assert(q2.drop_last() =~= Seq::<Behavior>::empty());
    assert(a2 =~= s.active);
    assert(!active_set(a2).contains(Behavior::LinearModeOn));
    assert(!active_set(a2).contains(Behavior::LogarithmicModeOn));
}

/// What dispatching a queue reports: never a key to pass on, and it
/// stopped exactly when its last action is `Exit` or `Reset`.
pub(crate) proof fn lemma_dispatch_all_actions(queue: Seq<Behavior>, p: Props, active: Set<Behavior>, defaults: Props)
    ensures
        ({
            let (_q, acts, _grab, stopped) = dispatch_all(queue, p, active, defaults);
            &&& forall|i: int| 0 <= i < acts.len() ==> !(#[trigger] acts[i] is PassThrough)
            &&& stopped <==> stops(acts)
        }),
    decreases queue.len(),
{
    if queue.len() > 0 {
        lemma_dispatch_all_actions(queue.drop_last(), p, active, defaults);
        let (p1, acts, grab, stopped) = dispatch_all(queue.drop_last(), p, active, defaults);
        if !stopped {
            let (p2, out) = dispatch_spec(queue.last(), p1, active, defaults);
            match out {
                DispatchView::Exit => {
                    assert(forall|i: int| 0 <= i < acts.len() ==> acts.push(ActionView::Exit)[i] == acts[i]);
                },
                DispatchView::Reset => {
                    assert(forall|i: int| 0 <= i < acts.len() ==> acts.push(ActionView::Reset)[i] == acts[i]);
                },
                DispatchView::Grab(_) => {},
                DispatchView::Emit(evs) => {
                    assert(forall|i: int| 0 <= i < acts.len() ==> acts.push(ActionView::Mouse(evs))[i] == acts[i]);
                },
            }
        }
    }
}

/// A key event with a positive value is handled the same whatever that
/// value is: a repeat (2) of a held key changes the state as a press (1)
/// would, and asks for the same actions, the key passed on carrying its own
/// value.
pub proof fn lemma_repeat_is_press(cfg: KeyConfig, defaults: Props, d: int, s: EmuState, code: u16, v1: i32, v2: i32)
    requires
        v1 > 0,
        v2 > 0,
    ensures
        ({
            let e1 = KeyEvent { event_type: EV_KEY, code, value: v1 };
            let e2 = KeyEvent { event_type: EV_KEY, code, value: v2 };
            let (s1, a1) = key_event_spec(cfg, defaults, d, s, e1);
            let (s2, a2) = key_event_spec(cfg, defaults, d, s, e2);
            &&& s1 == s2
            &&& a1.len() == a2.len()
            &&& forall|i: int|
                0 <= i < a1.len() ==> (#[trigger] a1[i] == a2[i] || (a1[i] matches ActionView::PassThrough(x)
                    && a2[i] == ActionView::PassThrough(KeyEvent { value: v2, ..x }) && x.value == v1))
        }),
{
    let e1 = KeyEvent { event_type: EV_KEY, code, value: v1 };
    let e2 = KeyEvent { event_type: EV_KEY, code, value: v2 };
    let physical = set_held(s.physical, code as usize, true);
    let r1 = rewire_event(cfg.rewiring(), physical, d, e1);
    let r2 = rewire_event(cfg.rewiring(), physical, d, e2);
    assert(r2 == KeyEvent { value: v2, ..r1 });
    assert(r1.value == v1);
}

/// A release is passed on exactly when its press was. For a key that is in
/// no rewire combination of its keyboard, a press followed by a release
/// (neither stopping the emulator) passes the release on if and only if the
/// press was passed on, whatever the release's own dispatch asked for.
pub proof fn lemma_release_passed_iff_press_passed(
    cfg: KeyConfig,
    defaults: Props,
    d: int,
    s: EmuState,
    k: u16,
    v1: i32,
    v2: i32,
)
    requires
        cfg.wf(),
        0 <= d < cfg.keyboards(),
        k <= KEYCODE_MAX,
        forall|t: int| 0 <= t <= KEYCODE_MAX ==> !#[trigger] cfg.rewiring()[d][t].contains(k as usize),
        s.logical.len() == KEYCODE_MAX + 1,
        v1 > 0,
        v2 <= 0,
    ensures
        ({
            let press = KeyEvent { event_type: EV_KEY, code: k, value: v1 };
            let release = KeyEvent { event_type: EV_KEY, code: k, value: v2 };
            let (s1, a1) = key_event_spec(cfg, defaults, d, s, press);
            let (s2, a2) = key_event_spec(cfg, defaults, d, s1, release);
            !stops(a1) && !stops(a2) ==> (a1.contains(ActionView::PassThrough(press))
                <==> a2.contains(ActionView::PassThrough(release)))
        }),
{
    let press = KeyEvent { event_type: EV_KEY, code: k, value: v1 };
    let release = KeyEvent { event_type: EV_KEY, code: k, value: v2 };
    assert(cfg.rewiring()[d] == combos_view(cfg.rewire_fwd@[d]@));
    // press
    let physical1 = set_held(s.physical, k as usize, true);
    crate::config::keymap::lemma_rewire_sound(cfg.rewiring(), physical1, d, press);
    assert(rewire_event(cfg.rewiring(), physical1, d, press) == press);
    let logical1 = set_logical_held(s.logical, k as usize, true);
    let related = keymap_reverse(cfg.keymap()[d])[k as int];
    let (act1, queue1) = {
        let (a, q, changed) = keydown_collect(cfg, d, held(logical1), s.props.mode, s.active, related);
        (a, if changed { q } else { q + longest_spec(cfg, d, active_set(a)) })
    };
    let (p1, acts1, grab1, stopped1) = dispatch_all(queue1, s.props, active_set(act1), defaults);
    lemma_dispatch_all_actions(queue1, s.props, active_set(act1), defaults);
    let (s1, a1) = key_event_spec(cfg, defaults, d, s, press);
    if stopped1 {
        assert(a1 == acts1);
        return;
    }
    let (logical2, g1) = grab_update(logical1, k as usize, v1, grab1);
    assert(g1 == grab1);
    assert(s1.logical == logical2);
    assert(logical2[k as int].1 == grab1);
    assert(a1 == if g1 { acts1 } else { acts1.push(ActionView::PassThrough(press)) });
    assert(a1.contains(ActionView::PassThrough(press)) <==> !grab1) by {
        if !grab1 {
            assert(a1[acts1.len() as int] == ActionView::PassThrough(press));
        } else {
            if a1.contains(ActionView::PassThrough(press)) {
                let i = choose|i: int| 0 <= i < a1.len() && a1[i] == ActionView::PassThrough(press);
                assert(!(acts1[i] is PassThrough));
            }
        }
    }
    // release
    let physical2 = set_held(s1.physical, k as usize, false);
    crate::config::keymap::lemma_rewire_sound(cfg.rewiring(), physical2, d, release);
    assert(rewire_event(cfg.rewiring(), physical2, d, release) == release);
    let logical3 = set_logical_held(s1.logical, k as usize, false);
    assert(logical3[k as int].1 == grab1);
    let related2 = keymap_reverse(cfg.keymap()[d])[k as int];
    let (act2, queue2) = keyup_collect(s1.active, related2);
    let (p2, acts2, grab2, stopped2) = dispatch_all(queue2, s1.props, active_set(act2), defaults);
    lemma_dispatch_all_actions(queue2, s1.props, active_set(act2), defaults);
    let (s2, a2) = key_event_spec(cfg, defaults, d, s1, release);
    if stopped2 {
        assert(a2 == acts2);
        return;
    }
    let (logical4, g2) = grab_update(logical3, k as usize, v2, grab2);
    assert(g2 == grab1);
    assert(a2 == if g2 { acts2 } else { acts2.push(ActionView::PassThrough(release)) });
    assert(a2.contains(ActionView::PassThrough(release)) <==> !grab1) by {
        if !grab1 {
            assert(a2[acts2.len() as int] == ActionView::PassThrough(release));
        } else {
            if a2.contains(ActionView::PassThrough(release)) {
                let i = choose|i: int| 0 <= i < a2.len() && a2[i] == ActionView::PassThrough(release);
                assert(!(acts2[i] is PassThrough));
            }
        }
    }
}

} // verus!
