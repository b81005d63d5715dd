//! The single-keymap driver: one keymap shared by the keyboard, keys
//! remapped one-to-one before anything else, one logical press table, and
//! the longest active behaviors dispatched on every press.
use vstd::prelude::*;
use crate::config::KEYCODE_MAX;
use crate::config::keymap::{keymap_reverse, KeyConfig};
use crate::config::vmouse::Props;
use crate::device::keyboards::{grab_update, held, set_logical_held, KeyEvent, EV_KEY};
use crate::device::vmouse::{
    active_set, longest_actives, longest_spec, mark_active, mark_inactive, Behavior, Dispatched,
};
use crate::event::handler::{
    actions_view, dispatch_all, keydown_collect, keyup_collect, lemma_dispatch_all_actions,
    lemma_dispatch_stays_stopped,
    stops, Action, ActionView, EmuState, MouseEmulator,
};
use crate::outside::{behaviors16_slice, mouse_events2};
use crate::setup::keymap::rewire;

verus! {

/// One key event under the shared keymap (keyboard 0's tables) and the
/// one-to-one table `remap`: the key is remapped and its logical state
/// recorded; a key beyond the keymap is passed on. Otherwise a press
/// activates the related behaviors (see `keydown_collect`) and queues the
/// mode triggers among them followed by the longest active behaviors; a
/// release deactivates them and queues their inverses. The queue is
/// dispatched; unless that stopped, the grab decision is recorded (a
/// release takes the decision of its press) and an ungrabbed event is
/// passed on. Events of other types are ignored.
pub open spec fn remapped_event_spec(
    cfg: KeyConfig,
    defaults: Props,
    remap: Seq<u16>,
    s: EmuState,
    ev: KeyEvent,
) -> (EmuState, Seq<ActionView>) {
    if ev.event_type != EV_KEY {
        (s, Seq::empty())
    } else {
        let ev2 = KeyEvent { event_type: ev.event_type, code: remap[ev.code as int], value: ev.value };
        let code = ev2.code as usize;
        let value = ev2.value;
        let logical = set_logical_held(s.logical, code, value > 0);
        if code > KEYCODE_MAX {
            (EmuState { logical, ..s }, seq![ActionView::PassThrough(ev2)])
        } else {
            let related = keymap_reverse(cfg.keymap()[0])[code as int];
            let (active, queue) = if value > 0 {
                let (a, q, _changed) = keydown_collect(
                    cfg,
                    0,
                    held(logical),
                    s.props.mode,
                    s.active,
                    related,
                );
                (a, q + longest_spec(cfg, 0, active_set(a)))
            } else {
                keyup_collect(s.active, related)
            };
            let (props, acts, grab, stopped) = dispatch_all(
                queue,
                s.props,
                active_set(active),
                defaults,
            );
            if stopped {
                (EmuState { logical, active, props, ..s }, acts)
            } else {
                let (logical2, grab2) = grab_update(logical, code, value, grab);
                (
                    EmuState { logical: logical2, active, props, ..s },
                    if grab2 {
                        acts
                    } else {
                        acts.push(ActionView::PassThrough(ev2))
                    },
                )
            }
        }
    }
}

/// A batch of key events under the shared keymap, handled in order until
/// one asks to exit or reset.
pub open spec fn remapped_events_spec(
    cfg: KeyConfig,
    defaults: Props,
    remap: Seq<u16>,
    s: EmuState,
    evs: Seq<KeyEvent>,
) -> (EmuState, Seq<ActionView>)
    decreases evs.len(),
{
    if evs.len() == 0 {
        (s, Seq::empty())
    } else {
        let (s1, a1) = remapped_events_spec(cfg, defaults, remap, s, evs.drop_last());
        if stops(a1) {
            (s1, a1)
        } else {
            let (s2, a2) = remapped_event_spec(cfg, defaults, remap, s1, evs.last());
            (s2, a1 + a2)
        }
    }
}

/// The key events of a batch that the remapping table can look up: every
/// key event's code lies in the table.
pub open spec fn remappable(evs: Seq<KeyEvent>) -> bool {
    forall|i: int| 0 <= i < evs.len() ==> (#[trigger] evs[i]).event_type == EV_KEY ==> evs[i].code
        <= KEYCODE_MAX
}

proof fn lemma_remapped_events_stay_stopped(
    cfg: KeyConfig,
    defaults: Props,
    remap: Seq<u16>,
    s: EmuState,
    evs: Seq<KeyEvent>,
    k: int,
)
    requires
        0 <= k <= evs.len(),
        stops(remapped_events_spec(cfg, defaults, remap, s, evs.take(k)).1),
    ensures
        remapped_events_spec(cfg, defaults, remap, s, evs) == remapped_events_spec(
            cfg,
            defaults,
            remap,
            s,
            evs.take(k),
        ),
    decreases evs.len() - k,
{
    if k < evs.len() {
        assert(evs.take(k + 1).drop_last() =~= evs.take(k));
        lemma_remapped_events_stay_stopped(cfg, defaults, remap, s, evs, k + 1);
    } else {
        assert(evs.take(k) =~= evs);
    }
}

impl MouseEmulator {
    /// Handles one key event under the shared keymap and the one-to-one
    /// table `remap` (see `remapped_event_spec`).
    pub fn handle_remapped_event(&mut self, remap: &Vec<u16>, ev: KeyEvent) -> (r: Vec<Action>)
        requires
            old(self).wf(),
            old(self).config.keyboards() > 0,
            remap@.len() == KEYCODE_MAX + 1,
            ev.event_type == EV_KEY ==> ev.code <= KEYCODE_MAX,
        ensures
            final(self).wf(),
            final(self).config == old(self).config,
            final(self).defaults == old(self).defaults,
            (final(self).state(), actions_view(r@)) == remapped_event_spec(
                old(self).config,
                old(self).defaults,
                remap@,
                old(self).state(),
                ev,
            ),
    {
        let ghost s0 = self.state();
        let ghost cfg = self.config;
        let ghost defaults0 = self.defaults;
        let mut actions: Vec<Action> = Vec::new();
        if ev.event_type != EV_KEY {
            assert(actions_view(actions@) =~= Seq::<ActionView>::empty());
            return actions;
        }
        let ev2 = rewire(remap, ev);
        let code = ev2.code as usize;
        let value = ev2.value;
        self.press.update_logical_press_state(code, value);
        let related = match self.config.get_related_behaviors(0, code) {
            Some(rel) => rel,
            None => {
                actions.push(Action::PassThrough(ev2));
                assert(actions_view(actions@) =~= seq![ActionView::PassThrough(ev2)]);
                return actions;
            },
        };
        let ghost rs = related@;
        let ghost press1 = self.press;
        let ghost logical = self.press.logical@;
        let ghost a0 = self.active.flags@;
        let ghost p0 = self.props;
        let mut queue: Vec<Behavior> = Vec::new();
        if value > 0 {
            let mut i: usize = 0;
            assert(rs.take(0) =~= Seq::<Behavior>::empty());
            while i < related.len()
                invariant
                    i <= rs.len(),
                    rs == related@,
                    self.config == cfg,
                    cfg.wf(),
                    cfg.keyboards() > 0,
                    self.press == press1,
                    press1.wf(),
                    press1.logical@ == logical,
                    self.props == p0,
                    self.defaults == defaults0,
                    self.active.wf(),
                    self.active.flags@ == keydown_collect(
                        cfg,
                        0,
                        held(logical),
                        p0.mode,
                        a0,
                        rs.take(i as int),
                    ).0,
                    queue@ == keydown_collect(
                        cfg,
                        0,
                        held(logical),
                        p0.mode,
                        a0,
                        rs.take(i as int),
                    ).1,
                decreases rs.len() - i,
            {
                proof {
                    assert(rs.take(i + 1).drop_last() =~= rs.take(i as int));
                    assert(rs.take(i + 1).last() == rs[i as int]);
                }
                let b = related[i];
                match self.config.get_combo(0, b) {
                    None => {},
                    Some(combo) => {
                        if self.press.logically_all_pressed(combo.as_slice(), None) {
                            if b.is_mode_trigger() {
                                mark_active(&mut self.active, &b);
                                queue.push(b);
                            } else if self.props.mode != 0 {
                                mark_active(&mut self.active, &b);
                            }
                        }
                    },
                }
                i = i + 1;
            }
            assert(rs.take(rs.len() as int) =~= rs);
            let longest = longest_actives(&self.active, &self.config, 0);
            let extra = behaviors16_slice(&longest);
            let ghost base = queue@;
            let mut k: usize = 0;
            while k < extra.len()
                invariant
                    k <= extra@.len(),
                    queue@ == base + extra@.take(k as int),
                decreases extra@.len() - k,
            {
                queue.push(extra[k]);
                assert(extra@.take(k + 1) =~= extra@.take(k as int).push(extra@[k as int]));
                k = k + 1;
            }
            assert(extra@.take(extra@.len() as int) =~= extra@);
        } else {
            let mut i: usize = 0;
            assert(rs.take(0) =~= Seq::<Behavior>::empty());
            while i < related.len()
                invariant
                    i <= rs.len(),
                    rs == related@,
                    self.config == cfg,
                    self.press == press1,
                    self.props == p0,
                    self.defaults == defaults0,
                    self.active.wf(),
                    (self.active.flags@, queue@) == keyup_collect(a0, rs.take(i as int)),
                decreases rs.len() - i,
            {
                proof {
                    assert(rs.take(i + 1).drop_last() =~= rs.take(i as int));
                    assert(rs.take(i + 1).last() == rs[i as int]);
                    crate::device::vmouse::lemma_index_of(rs[i as int]);
                }
                let b = related[i];
                if mark_inactive(&mut self.active, &b) {
                    let inv = b.inverse().unwrap();
                    queue.push(inv);
                }
                i = i + 1;
            }
            assert(rs.take(rs.len() as int) =~= rs);
        }
        let ghost q = queue@;
        let ghost a1 = self.active@;
        let ghost flags1 = self.active.flags@;
        proof {
            assert(ev2 == KeyEvent {
                event_type: ev.event_type,
                code: remap@[ev.code as int],
                value: ev.value,
            });
            assert(logical == set_logical_held(s0.logical, code, value > 0));
            assert(rs == keymap_reverse(cfg.keymap()[0])[code as int]);
            assert(a0 == s0.active);
            assert(p0 == s0.props);
            assert(a1 == active_set(flags1));
        }
        let mut grab = false;
        let mut stopped = false;
        let mut j: usize = 0;
        assert(q.take(0) =~= Seq::<Behavior>::empty());
        assert(actions_view(actions@) =~= Seq::<ActionView>::empty());
        while j < queue.len() && !stopped
            invariant
                j <= q.len(),
                queue@ == q,
                self.config == cfg,
                cfg.wf(),
                self.press == press1,
                press1.wf(),
                self.defaults == defaults0,
                self.active.wf(),
                self.active@ == a1,
                self.active.flags@ == flags1,
                (self.props, actions_view(actions@), grab, stopped) == dispatch_all(
                    q.take(j as int),
                    p0,
                    a1,
                    self.defaults,
                ),
            decreases q.len() - j,
        {
            proof {
                assert(q.take(j + 1).drop_last() =~= q.take(j as int));
                assert(q.take(j + 1).last() == q[j as int]);
            }
            let ghost before = actions@;
            let outcome = queue[j].dispatch(&mut self.props, &self.active, &self.defaults);
            match outcome {
                Ok(Dispatched::Exit) => {
                    actions.push(Action::Exit);
                    assert(actions_view(actions@) =~= actions_view(before).push(ActionView::Exit));
                    stopped = true;
                },
                Err(_) => {
                    actions.push(Action::Reset);
                    assert(actions_view(actions@) =~= actions_view(before).push(ActionView::Reset));
                    stopped = true;
                },
                Ok(Dispatched::Grab(g)) => {
                    grab = grab || g;
                },
                Ok(Dispatched::Emit(events)) => {
                    actions.push(Action::Mouse(events));
                    assert(actions_view(actions@) =~= actions_view(before).push(
                        ActionView::Mouse(mouse_events2(events)),
                    ));
                    grab = true;
                },
            }
            j = j + 1;
        }
        if stopped {
            proof {
                lemma_dispatch_stays_stopped(q, j as int, p0, a1, defaults0);
                let r = dispatch_all(q, p0, a1, defaults0);
                let spec_r = remapped_event_spec(cfg, defaults0, remap@, s0, ev);
                assert(spec_r.1 == r.1);
                assert(spec_r.0 == self.state());
            }
            return actions;
        }
        assert(q.take(q.len() as int) =~= q);
        self.press.update_grab_state(code, value, &mut grab);
        if !grab {
            let ghost before = actions@;
            actions.push(Action::PassThrough(ev2));
            assert(actions_view(actions@) =~= actions_view(before).push(ActionView::PassThrough(ev2)));
        }
        actions
    }

    /// Handles a batch of key events under the shared keymap and the
    /// one-to-one table `remap`, in order, until one asks to exit or reset
    /// (see `remapped_events_spec`).
    pub fn handle_events(&mut self, remap: &Vec<u16>, events: &[KeyEvent]) -> (r: Vec<Action>)
        requires
            old(self).wf(),
            old(self).config.keyboards() > 0,
            remap@.len() == KEYCODE_MAX + 1,
            remappable(events@),
        ensures
            final(self).wf(),
            final(self).config == old(self).config,
            final(self).defaults == old(self).defaults,
            (final(self).state(), actions_view(r@)) == remapped_events_spec(
                old(self).config,
                old(self).defaults,
                remap@,
                old(self).state(),
                events@,
            ),
    {
        let ghost s0 = self.state();
        let ghost cfg = self.config;
        let ghost defaults0 = self.defaults;
        let mut actions: Vec<Action> = Vec::new();
        let mut stopped = false;
        let mut i: usize = 0;
        assert(events@.take(0) =~= Seq::<KeyEvent>::empty());
        assert(actions_view(actions@) =~= Seq::<ActionView>::empty());
        while i < events.len() && !stopped
            invariant
                i <= events@.len(),
                self.wf(),
                self.config == cfg,
                self.defaults == defaults0,
                cfg.keyboards() > 0,
                remap@.len() == KEYCODE_MAX + 1,
                remappable(events@),
                stopped == stops(actions_view(actions@)),
                (self.state(), actions_view(actions@)) == remapped_events_spec(
                    cfg,
                    defaults0,
                    remap@,
                    s0,
                    events@.take(i as int),
                ),
            decreases events@.len() - i,
        {
            proof {
                assert(events@.take(i + 1).drop_last() =~= events@.take(i as int));
                assert(events@.take(i + 1).last() == events@[i as int]);
            }
            let ghost before = actions@;
            let mut more = self.handle_remapped_event(remap, events[i]);
            let ghost added = more@;
            actions.append(&mut more);
            assert(actions_view(actions@) =~= actions_view(before) + actions_view(added));
            let n = actions.len();
            stopped = n > 0 && match actions[n - 1] {
                Action::Exit | Action::Reset => true,
                _ => false,
            };
            i = i + 1;
        }
        proof {
            if stopped {
                lemma_remapped_events_stay_stopped(cfg, defaults0, remap@, s0, events@, i as int);
            } else {
                assert(events@.take(i as int) =~= events@);
            }
        }
        actions
    }
}

/// Under the shared keymap a key event with a positive value is handled
/// the same whatever that value is: a repeat (2) of a held key changes the
/// state as a press (1) would and asks for the same actions, the key passed
/// on carrying its own value.
pub proof fn lemma_remapped_repeat_is_press(
    cfg: KeyConfig,
    defaults: Props,
    remap: Seq<u16>,
    s: EmuState,
    code: u16,
    v1: i32,
    v2: i32,
)
    requires
        v1 > 0,
        v2 > 0,
    ensures
        ({
            let e1 = KeyEvent { event_type: EV_KEY, code, value: v1 };
            let e2 = KeyEvent { event_type: EV_KEY, code, value: v2 };
            let (s1, a1) = remapped_event_spec(cfg, defaults, remap, s, e1);
            let (s2, a2) = remapped_event_spec(cfg, defaults, remap, s, e2);
            &&& s1 == s2
            &&& a1.len() == a2.len()
            &&& forall|i: int|
                0 <= i < a1.len() ==> (#[trigger] a1[i] == a2[i] || (a1[i] matches ActionView::PassThrough(x)
                    && a2[i] == ActionView::PassThrough(KeyEvent { value: v2, ..x }) && x.value == v1))
        }),
{
}

/// Under the shared keymap a release is passed on exactly when its press
/// was: a press of a key followed by its release (neither stopping the
/// emulator, the remapping sending the key inside the keymap) passes the
/// release on if and only if the press was passed on, whatever the
/// release's own dispatch asked for.
pub proof fn lemma_remapped_release_follows_press(
    cfg: KeyConfig,
    defaults: Props,
    remap: Seq<u16>,
    s: EmuState,
    k: u16,
    v1: i32,
    v2: i32,
)
    requires
        s.logical.len() == KEYCODE_MAX + 1,
        remap[k as int] <= KEYCODE_MAX,
        v1 > 0,
        v2 <= 0,
    ensures
        ({
            let press = KeyEvent { event_type: EV_KEY, code: k, value: v1 };
            let release = KeyEvent { event_type: EV_KEY, code: k, value: v2 };
            let out1 = KeyEvent { event_type: EV_KEY, code: remap[k as int], value: v1 };
            let out2 = KeyEvent { event_type: EV_KEY, code: remap[k as int], value: v2 };
            let (s1, a1) = remapped_event_spec(cfg, defaults, remap, s, press);
            let (s2, a2) = remapped_event_spec(cfg, defaults, remap, s1, release);
            !stops(a1) && !stops(a2) ==> (a1.contains(ActionView::PassThrough(out1))
                <==> a2.contains(ActionView::PassThrough(out2)))
        }),
{
    let press = KeyEvent { event_type: EV_KEY, code: k, value: v1 };
    let release = KeyEvent { event_type: EV_KEY, code: k, value: v2 };
    let out1 = KeyEvent { event_type: EV_KEY, code: remap[k as int], value: v1 };
    let out2 = KeyEvent { event_type: EV_KEY, code: remap[k as int], value: v2 };
    let c = remap[k as int] as usize;
    let logical1 = set_logical_held(s.logical, c, true);
    let related = keymap_reverse(cfg.keymap()[0])[c as int];
    let (a, q, _changed) = keydown_collect(cfg, 0, held(logical1), s.props.mode, s.active, related);
    let queue1 = q + longest_spec(cfg, 0, active_set(a));
    let (p1, acts1, grab1, stopped1) = dispatch_all(queue1, s.props, active_set(a), defaults);
    lemma_dispatch_all_actions(queue1, s.props, active_set(a), defaults);
    let (s1, a1) = remapped_event_spec(cfg, defaults, remap, s, press);
    if stopped1 {
        assert(a1 == acts1);
        return;
    }
    let (logical2, g1) = grab_update(logical1, c, v1, grab1);
    assert(s1.logical == logical2);
    assert(logical2[c as int].1 == grab1);
    assert(a1 == if g1 { acts1 } else { acts1.push(ActionView::PassThrough(out1)) });
    assert(a1.contains(ActionView::PassThrough(out1)) <==> !grab1) by {
        if !grab1 {
            assert(a1[acts1.len() as int] == ActionView::PassThrough(out1));
        } else if a1.contains(ActionView::PassThrough(out1)) {
            let i = choose|i: int| 0 <= i < a1.len() && a1[i] == ActionView::PassThrough(out1);
            assert(!(acts1[i] is PassThrough));
        }
    }
    let logical3 = set_logical_held(s1.logical, c, false);
    assert(logical3[c as int].1 == grab1);
    let (act2, queue2) = keyup_collect(s1.active, related);
    let (p2, acts2, grab2, stopped2) = dispatch_all(queue2, s1.props, active_set(act2), defaults);
    lemma_dispatch_all_actions(queue2, s1.props, active_set(act2), defaults);
    let (s2, a2) = remapped_event_spec(cfg, defaults, remap, s1, release);
    if stopped2 {
        assert(a2 == acts2);
        return;
    }
    let (logical4, g2) = grab_update(logical3, c, v2, grab2);
    assert(g2 == grab1);
    assert(a2 == if g2 { acts2 } else { acts2.push(ActionView::PassThrough(out2)) });
    assert(a2.contains(ActionView::PassThrough(out2)) <==> !grab1) by {
        if !grab1 {
            assert(a2[acts2.len() as int] == ActionView::PassThrough(out2));
        } else if a2.contains(ActionView::PassThrough(out2)) {
            let i = choose|i: int| 0 <= i < a2.len() && a2[i] == ActionView::PassThrough(out2);
            assert(!(acts2[i] is PassThrough));
        }
    }
}

} // verus!
