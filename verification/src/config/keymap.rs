//! Per-keyboard key bindings (keymap) and key rewiring, in both directions:
//! behavior -> key combination and key -> behaviors for the keymap,
//! target key -> source combination and key -> targets for rewiring.
use vstd::prelude::*;
use vstd::string::StringExecFns;
use crate::config::{ConfigError, ErrorKind, KEYCODE_MAX};
use crate::device::keyboards::{all_held, KeyEvent, PressState};
use crate::device::vmouse::{
    behavior_at, behavior_named, index_of, lemma_behavior_at, lemma_index_of, Behavior, VAR_COUNT,
};
use crate::outside::{evdev_key_code, key_code_from_name, uppercase};
use crate::setup::keymap::load_rvs;
use crate::text::{split, split_spec, string_views, views};

verus! {

/// How many times `k` occurs in `s`.
pub open spec fn count(s: Seq<usize>, k: usize) -> nat
    decreases s.len(),
{
    if s.len() == 0 {
        0
    } else {
        count(s.drop_last(), k) + if s.last() == k {
            1nat
        } else {
            0nat
        }
    }
}

/// `n` copies of `x`.
pub open spec fn repeat<T>(x: T, n: nat) -> Seq<T> {
    Seq::new(n, |_i: int| x)
}

/// The slots `0..n` of `table`, each listed once per occurrence of `k` in
/// it, in slot order.
pub open spec fn slots_with(table: Seq<Seq<usize>>, k: usize, n: int) -> Seq<usize>
    decreases n,
{
    if n <= 0 {
        Seq::empty()
    } else {
        slots_with(table, k, n - 1) + repeat((n - 1) as usize, count(table[n - 1], k))
    }
}

/// The views of a table of combinations.
pub open spec fn combos_view(v: Seq<Vec<usize>>) -> Seq<Seq<usize>> {
    Seq::new(v.len(), |i: int| v[i]@)
}

/// The views of one table of combinations per keyboard.
pub open spec fn tables_view(v: Seq<Vec<Vec<usize>>>) -> Seq<Seq<Seq<usize>>> {
    Seq::new(v.len(), |i: int| combos_view(v[i]@))
}

/// The views of a table of behavior lists.
pub open spec fn behavior_lists_view(v: Seq<Vec<Behavior>>) -> Seq<Seq<Behavior>> {
    Seq::new(v.len(), |i: int| v[i]@)
}

/// The views of one table of behavior lists per keyboard.
pub open spec fn behavior_tables_view(v: Seq<Vec<Vec<Behavior>>>) -> Seq<Seq<Seq<Behavior>>> {
    Seq::new(v.len(), |i: int| behavior_lists_view(v[i]@))
}

/// The behaviors whose combination holds key `k`, once per occurrence of
/// `k`, in behavior order.
pub open spec fn related_spec(fwd: Seq<Seq<usize>>, k: usize) -> Seq<Behavior> {
    let slots = slots_with(fwd, k, VAR_COUNT as int);
    Seq::new(slots.len(), |i: int| behavior_at(slots[i] as int).unwrap())
}

/// The reverse keymap of one keyboard: for each key up to `KEYCODE_MAX`,
/// the behaviors whose combination holds it.
pub open spec fn keymap_reverse(fwd: Seq<Seq<usize>>) -> Seq<Seq<Behavior>> {
    Seq::new((KEYCODE_MAX + 1) as nat, |k: int| related_spec(fwd, k as usize))
}

/// The reverse rewire table of one keyboard: for each key up to
/// `KEYCODE_MAX`, the targets whose source combination holds it (once per
/// occurrence, in target order).
pub open spec fn rewire_reverse(fwd: Seq<Seq<usize>>) -> Seq<Seq<usize>> {
    Seq::new((KEYCODE_MAX + 1) as nat, |k: int| slots_with(fwd, k as usize, KEYCODE_MAX + 1))
}

/// Every source key of every rewire target lies in the table.
pub open spec fn rewire_keys_in_range(fwd: Seq<Seq<usize>>) -> bool {
    forall|t: int, j: int|
        0 <= t <= KEYCODE_MAX && 0 <= j < fwd[t].len() ==> #[trigger] fwd[t][j] <= KEYCODE_MAX
}

/// The slots below `n` of `table` that hold `k`, once per occurrence.
pub(crate) fn slots_holding(table: &Vec<Vec<usize>>, k: usize, n: usize) -> (r: Vec<usize>)
    requires
        n <= table@.len(),
    ensures
        r@ == slots_with(combos_view(table@), k, n as int),
{
    let ghost tv = combos_view(table@);
    let mut out: Vec<usize> = Vec::new();
    let mut b: usize = 0;
    while b < n
        invariant
            n <= table@.len(),
            tv == combos_view(table@),
            b <= n,
            out@ == slots_with(tv, k, b as int),
        decreases n - b,
    {
        let combo = &table[b];
        let ghost base = out@;
        let mut j: usize = 0;
        while j < combo.len()
            invariant
                j <= combo@.len(),
                combo@ == tv[b as int],
                out@ == base + repeat(b, count(combo@.take(j as int), k)),
            decreases combo@.len() - j,
        {
            proof {
                assert(combo@.take(j + 1).drop_last() =~= combo@.take(j as int));
                assert(combo@.take(j + 1).last() == combo@[j as int]);
            }
            if combo[j] == k {
                out.push(b);
                assert(out@ =~= base + repeat(b, count(combo@.take(j + 1), k)));
            } else {
                assert(out@ =~= base + repeat(b, count(combo@.take(j + 1), k)));
            }
            j = j + 1;
        }
        assert(combo@.take(combo@.len() as int) =~= combo@);
        b = b + 1;
    }
    out
}

pub(crate) proof fn lemma_slots_below(table: Seq<Seq<usize>>, k: usize, n: int)
    requires
        0 <= n,
    ensures
        forall|i: int| 0 <= i < slots_with(table, k, n).len() ==> slots_with(table, k, n)[i] < n,
    decreases n,
{
    if n > 0 {
        lemma_slots_below(table, k, n - 1);
        let prev = slots_with(table, k, n - 1);
        let s = slots_with(table, k, n);
        assert forall|i: int| 0 <= i < s.len() implies s[i] < n by {
            if i < prev.len() {
                assert(s[i] == prev[i]);
            }
        }
    }
}

/// The reverse keymap of each keyboard: for each key up to `KEYCODE_MAX`,
/// the behaviors whose combination holds it.
pub fn load_keymap_rvs(fwd: &Vec<Vec<Vec<usize>>>) -> (r: Vec<Vec<Vec<Behavior>>>)
    requires
        forall|d: int| 0 <= d < fwd@.len() ==> #[trigger] fwd@[d]@.len() == VAR_COUNT,
    ensures
        r@.len() == fwd@.len(),
        forall|d: int|
            0 <= d < fwd@.len() ==> #[trigger] behavior_tables_view(r@)[d] == keymap_reverse(
                tables_view(fwd@)[d],
            ),
{
    let mut out: Vec<Vec<Vec<Behavior>>> = Vec::new();
    let mut d: usize = 0;
    while d < fwd.len()
        invariant
            d <= fwd@.len(),
            out@.len() == d,
            forall|e: int| 0 <= e < fwd@.len() ==> #[trigger] fwd@[e]@.len() == VAR_COUNT,
            forall|e: int|
                0 <= e < d ==> #[trigger] behavior_tables_view(out@)[e] == keymap_reverse(
                    tables_view(fwd@)[e],
                ),
        decreases fwd@.len() - d,
    {
        let per_key = load_rvs(&fwd[d]);
        assert(tables_view(fwd@)[d as int] == combos_view(fwd@[d as int]@));
        let ghost before = out@;
        out.push(per_key);
        proof {
            assert forall|e: int|
                0 <= e < d + 1 implies #[trigger] behavior_tables_view(out@)[e] == keymap_reverse(
                tables_view(fwd@)[e],
            ) by {
                if e < d {
                    assert(out@[e] == before[e]);
                    assert(behavior_tables_view(before)[e] == keymap_reverse(
                        tables_view(fwd@)[e],
                    ));
                }
            }
        }
        d = d + 1;
    }
    out
}

/// The reverse rewire table of each keyboard: for each key up to
/// `KEYCODE_MAX`, the targets whose source combination holds it.
pub fn load_rewire_rvs(fwd: &Vec<Vec<Vec<usize>>>) -> (r: Vec<Vec<Vec<usize>>>)
    requires
        forall|d: int| 0 <= d < fwd@.len() ==> #[trigger] fwd@[d]@.len() == KEYCODE_MAX + 1,
        forall|d: int|
            0 <= d < fwd@.len() ==> rewire_keys_in_range(#[trigger] tables_view(fwd@)[d]),
    ensures
        r@.len() == fwd@.len(),
        forall|d: int|
            0 <= d < fwd@.len() ==> #[trigger] tables_view(r@)[d] == rewire_reverse(
                tables_view(fwd@)[d],
            ),
{
    let mut out: Vec<Vec<Vec<usize>>> = Vec::new();
    let mut d: usize = 0;
    while d < fwd.len()
        invariant
            d <= fwd@.len(),
            out@.len() == d,
            forall|e: int| 0 <= e < fwd@.len() ==> #[trigger] fwd@[e]@.len() == KEYCODE_MAX + 1,
            forall|e: int|
                0 <= e < d ==> #[trigger] tables_view(out@)[e] == rewire_reverse(
                    tables_view(fwd@)[e],
                ),
        decreases fwd@.len() - d,
    {
        let table = &fwd[d];
        let ghost tv = combos_view(table@);
        let mut per_key: Vec<Vec<usize>> = Vec::new();
        let mut k: usize = 0;
        while k <= KEYCODE_MAX
            invariant
                k <= KEYCODE_MAX + 1,
                table@.len() == KEYCODE_MAX + 1,
                tv == combos_view(table@),
                per_key@.len() == k,
                forall|j: int|
                    0 <= j < k ==> #[trigger] combos_view(per_key@)[j] == slots_with(
                        tv,
                        j as usize,
                        KEYCODE_MAX + 1,
                    ),
            decreases KEYCODE_MAX + 1 - k,
        {
            let targets = slots_holding(table, k, KEYCODE_MAX + 1);
            let ghost before = per_key@;
            per_key.push(targets);
            proof {
                assert forall|j: int| 0 <= j < k + 1 implies #[trigger] combos_view(per_key@)[j]
                    == slots_with(tv, j as usize, KEYCODE_MAX + 1) by {
                    if j < k {
                        assert(per_key@[j] == before[j]);
                        assert(combos_view(before)[j] == slots_with(
                            tv,
                            j as usize,
                            KEYCODE_MAX + 1,
                        ));
                    }
                }
            }
            k = k + 1;
        }
        assert(combos_view(per_key@) =~= rewire_reverse(tv));
        let ghost before = out@;
        out.push(per_key);
        proof {
            assert forall|e: int|
                0 <= e < d + 1 implies #[trigger] tables_view(out@)[e] == rewire_reverse(
                tables_view(fwd@)[e],
            ) by {
                if e < d {
                    assert(out@[e] == before[e]);
                    assert(tables_view(before)[e] == rewire_reverse(tables_view(fwd@)[e]));
                }
            }
        }
        d = d + 1;
    }
    out
}

/// The evdev name of a configured key: `KEY_` followed by the name.
pub open spec fn key_name(name: Seq<char>) -> Seq<char> {
    "KEY_"@ + name
}

/// The scancodes of configured key names, or `None` when evdev does not
/// know one of them.
pub open spec fn key_codes(names: Seq<Seq<char>>) -> Option<Seq<usize>>
    decreases names.len(),
{
    if names.len() == 0 {
        Some(Seq::empty())
    } else {
        match (key_codes(names.drop_last()), evdev_key_code(key_name(names.last()))) {
            (Some(cs), Some(c)) => Some(cs.push(c as usize)),
            _ => None,
        }
    }
}

/// The outcome of reading a table of combinations.
pub type TableOutcome = Result<Seq<Seq<usize>>, (ErrorKind, Seq<char>)>;

/// An empty table with `n` slots.
pub open spec fn empty_table(n: nat) -> Seq<Seq<usize>> {
    Seq::new(n, |_i: int| Seq::<usize>::empty())
}

/// A keymap line `keys : BEHAVIOR` applied to a keymap: the behavior's
/// combination becomes the keys. Checked in this order: the line has one
/// `:`, every key is known to evdev, the behavior is known.
pub open spec fn keymap_line(cfg: Seq<Seq<usize>>, line: Seq<char>) -> TableOutcome {
    let parts = split_spec(line, ":"@);
    if parts.len() != 2 {
        Err((ErrorKind::InvalidKeymapLine, line))
    } else {
        match key_codes(split_spec(parts[0], "+"@)) {
            None => Err((ErrorKind::UnknownKeymapKey, line)),
            Some(keys) => match behavior_named(uppercase(parts[1])) {
                None => Err((ErrorKind::UnknownBehavior, parts[1])),
                Some(b) => Ok(cfg.update(index_of(b), keys)),
            },
        }
    }
}

/// The keymap of one keyboard read from its setting lines: the first bad
/// line refuses the whole keymap.
pub open spec fn keymap_spec(lines: Seq<Seq<char>>) -> TableOutcome
    decreases lines.len(),
{
    if lines.len() == 0 {
        Ok(empty_table(VAR_COUNT as nat))
    } else {
        match keymap_spec(lines.drop_last()) {
            Ok(cfg) => keymap_line(cfg, lines.last()),
            Err(e) => Err(e),
        }
    }
}

/// A rewire line `keys -> key` applied to a rewire table: the target's
/// source combination becomes the keys. Checked in this order: the line
/// has one `->`, the target is known to evdev, every source key is known,
/// the target lies in the table.
pub open spec fn rewire_line(cfg: Seq<Seq<usize>>, line: Seq<char>) -> TableOutcome {
    let parts = split_spec(line, "->"@);
    if parts.len() != 2 {
        Err((ErrorKind::InvalidRewireLine, line))
    } else {
        match evdev_key_code(key_name(parts[1])) {
            None => Err((ErrorKind::UnknownRewireKey, line)),
            Some(to) => match key_codes(split_spec(parts[0], "+"@)) {
                None => Err((ErrorKind::UnknownRewireKey, line)),
                Some(keys) => if to > KEYCODE_MAX {
                    Err((ErrorKind::RewireKeyOutOfRange, line))
                } else {
                    Ok(cfg.update(to as int, keys))
                },
            },
        }
    }
}

/// The rewire table of one keyboard read from its setting lines.
pub open spec fn rewire_spec(lines: Seq<Seq<char>>) -> TableOutcome
    decreases lines.len(),
{
    if lines.len() == 0 {
        Ok(empty_table((KEYCODE_MAX + 1) as nat))
    } else {
        match rewire_spec(lines.drop_last()) {
            Ok(cfg) => rewire_line(cfg, lines.last()),
            Err(e) => Err(e),
        }
    }
}

/// The view of a table read in exec code.
pub open spec fn table_outcome(r: Result<Vec<Vec<usize>>, ConfigError>) -> TableOutcome {
    match r {
        Ok(v) => Ok(combos_view(v@)),
        Err(e) => Err(e@),
    }
}

fn refuse(kind: ErrorKind, text: &str) -> (e: ConfigError)
    ensures
        e@ == (kind, text@),
{
    ConfigError { kind, text: text.to_owned() }
}

/// The scancode evdev gives the configured key name (`KEY_` is put in front).
pub fn evdev_key_code_of(name: &str) -> (r: Option<u16>)
    ensures
        r == evdev_key_code(key_name(name@)),
{
    let mut full = "KEY_".to_owned();
    full.append(name);
    key_code_from_name(full.as_str())
}

/// The scancodes of configured key names (`KEY_` is put in front of each).
fn lookup_keys(names: &Vec<&str>) -> (r: Option<Vec<usize>>)
    ensures
        match r {
            Some(v) => key_codes(views(names@)) == Some(v@),
            None => key_codes(views(names@)) is None,
        },
{
    let mut codes: Vec<usize> = Vec::new();
    let mut i: usize = 0;
    while i < names.len()
        invariant
            i <= names@.len(),
            key_codes(views(names@).take(i as int)) == Some(codes@),
        decreases names@.len() - i,
    {
        let found = evdev_key_code_of(names[i]);
        proof {
            assert(views(names@).take(i + 1).drop_last() =~= views(names@).take(i as int));
            assert(views(names@).take(i + 1).last() == names@[i as int]@);
        }
        match found {
            Some(c) => {
                codes.push(c as usize);
            },
            None => {
                proof {
                    lemma_key_codes_prefix_none(views(names@), i + 1);
                }
                return None;
            },
        }
        i = i + 1;
    }
    assert(views(names@).take(names@.len() as int) =~= views(names@));
    Some(codes)
}

proof fn lemma_key_codes_prefix_none(names: Seq<Seq<char>>, k: int)
    requires
        0 <= k <= names.len(),
        key_codes(names.take(k)) is None,
    ensures
        key_codes(names) is None,
    decreases names.len() - k,
{
    if k < names.len() {
        assert(names.take(k + 1).drop_last() =~= names.take(k));
        lemma_key_codes_prefix_none(names, k + 1);
    } else {
        assert(names.take(k) =~= names);
    }
}

/// A table of `n` empty combinations.
fn empty_combos(n: usize) -> (r: Vec<Vec<usize>>)
    ensures
        r@.len() == n,
        combos_view(r@) == empty_table(n as nat),
{
    let mut v: Vec<Vec<usize>> = Vec::new();
    let mut i: usize = 0;
    while i < n
        invariant
            i <= n,
            v@.len() == i,
            combos_view(v@) =~= empty_table(i as nat),
        decreases n - i,
    {
        let e: Vec<usize> = Vec::new();
        let ghost before = v@;
        v.push(e);
        assert(combos_view(v@) =~= combos_view(before).push(Seq::<usize>::empty()));
        assert(empty_table((i + 1) as nat) =~= empty_table(i as nat).push(Seq::<usize>::empty()));
        i = i + 1;
    }
    v
}

/// Applies one keymap line to a keymap (see `keymap_line`).
fn apply_keymap_line(cfg: &mut Vec<Vec<usize>>, line: &str) -> (r: Result<(), ConfigError>)
    requires
        old(cfg)@.len() == VAR_COUNT,
    ensures
        final(cfg)@.len() == VAR_COUNT,
        match r {
            Ok(()) => keymap_line(combos_view(old(cfg)@), line@) == Ok::<
                Seq<Seq<usize>>,
                (ErrorKind, Seq<char>),
            >(combos_view(final(cfg)@)),
            Err(e) => keymap_line(combos_view(old(cfg)@), line@) == Err::<
                Seq<Seq<usize>>,
                (ErrorKind, Seq<char>),
            >(e@),
        },
{
    let colon = ":";
    let plus = "+";
    proof {
        reveal_strlit(":");
        reveal_strlit("+");
    }
    let parts = split(line, colon);
    if parts.len() != 2 {
        return Err(refuse(ErrorKind::InvalidKeymapLine, line));
    }
    assert(views(parts@)[0] == parts@[0]@);
    assert(views(parts@)[1] == parts@[1]@);
    let names = split(parts[0], plus);
    let keys = match lookup_keys(&names) {
        Some(keys) => keys,
        None => {
            return Err(refuse(ErrorKind::UnknownKeymapKey, line));
        },
    };
    let behavior = match Behavior::from_str(parts[1]) {
        Some(b) => b,
        None => {
            return Err(refuse(ErrorKind::UnknownBehavior, parts[1]));
        },
    };
    let ghost before = combos_view(cfg@);
    cfg.set(behavior.index(), keys);
    proof {
        lemma_index_of(behavior);
        assert(combos_view(cfg@) =~= before.update(index_of(behavior), keys@));
    }
    Ok(())
}

/// Applies one rewire line to a rewire table (see `rewire_line`).
fn apply_rewire_line(cfg: &mut Vec<Vec<usize>>, line: &str) -> (r: Result<(), ConfigError>)
    requires
        old(cfg)@.len() == KEYCODE_MAX + 1,
    ensures
        final(cfg)@.len() == KEYCODE_MAX + 1,
        match r {
            Ok(()) => rewire_line(combos_view(old(cfg)@), line@) == Ok::<
                Seq<Seq<usize>>,
                (ErrorKind, Seq<char>),
            >(combos_view(final(cfg)@)),
            Err(e) => rewire_line(combos_view(old(cfg)@), line@) == Err::<
                Seq<Seq<usize>>,
                (ErrorKind, Seq<char>),
            >(e@),
        },
{
    let arrow = "->";
    let plus = "+";
    proof {
        reveal_strlit("->");
        reveal_strlit("+");
    }
    let parts = split(line, arrow);
    if parts.len() != 2 {
        return Err(refuse(ErrorKind::InvalidRewireLine, line));
    }
    assert(views(parts@)[0] == parts@[0]@);
    assert(views(parts@)[1] == parts@[1]@);
    let to = match evdev_key_code_of(parts[1]) {
        Some(c) => c as usize,
        None => {
            return Err(refuse(ErrorKind::UnknownRewireKey, line));
        },
    };
    let names = split(parts[0], plus);
    let keys = match lookup_keys(&names) {
        Some(keys) => keys,
        None => {
            return Err(refuse(ErrorKind::UnknownRewireKey, line));
        },
    };
    if to > KEYCODE_MAX {
        return Err(refuse(ErrorKind::RewireKeyOutOfRange, line));
    }
    let ghost before = combos_view(cfg@);
    cfg.set(to, keys);
    proof {
        assert(combos_view(cfg@) =~= before.update(to as int, keys@));
    }
    Ok(())
}

/// Reads the keymap of one keyboard from its setting lines: each line
/// `keys : BEHAVIOR` binds the behavior to the `+`-separated keys (a later
/// line for the same behavior wins).
pub fn parse_keymap(lines: &Vec<String>) -> (r: Result<Vec<Vec<usize>>, ConfigError>)
    ensures
        table_outcome(r) == keymap_spec(string_views(lines@)),
        r matches Ok(v) ==> v@.len() == VAR_COUNT,
{
    let ghost ls = string_views(lines@);
    let mut cfg = empty_combos(VAR_COUNT);
    let mut i: usize = 0;
    while i < lines.len()
        invariant
            i <= lines@.len(),
            ls == string_views(lines@),
            cfg@.len() == VAR_COUNT,
            keymap_spec(ls.take(i as int)) == Ok::<Seq<Seq<usize>>, (ErrorKind, Seq<char>)>(
                combos_view(cfg@),
            ),
        decreases lines@.len() - i,
    {
        proof {
            assert(ls.take(i + 1).drop_last() =~= ls.take(i as int));
            assert(ls.take(i + 1).last() == lines@[i as int]@);
        }
        match apply_keymap_line(&mut cfg, lines[i].as_str()) {
            Ok(()) => {},
            Err(e) => {
                proof {
                    lemma_keymap_spec_stays_refused(ls, i + 1);
                }
                return Err(e);
            },
        }
        i = i + 1;
    }
    assert(ls.take(lines@.len() as int) =~= ls);
    Ok(cfg)
}

proof fn lemma_keymap_spec_stays_refused(ls: Seq<Seq<char>>, k: int)
    requires
        0 <= k <= ls.len(),
        keymap_spec(ls.take(k)) is Err,
    ensures
        keymap_spec(ls) == keymap_spec(ls.take(k)),
    decreases ls.len() - k,
{
    if k < ls.len() {
        assert(ls.take(k + 1).drop_last() =~= ls.take(k));
        lemma_keymap_spec_stays_refused(ls, k + 1);
    } else {
        assert(ls.take(k) =~= ls);
    }
}

proof fn lemma_rewire_spec_stays_refused(ls: Seq<Seq<char>>, k: int)
    requires
        0 <= k <= ls.len(),
        rewire_spec(ls.take(k)) is Err,
    ensures
        rewire_spec(ls) == rewire_spec(ls.take(k)),
    decreases ls.len() - k,
{
    if k < ls.len() {
        assert(ls.take(k + 1).drop_last() =~= ls.take(k));
        lemma_rewire_spec_stays_refused(ls, k + 1);
    } else {
        assert(ls.take(k) =~= ls);
    }
}

/// Reads the rewire table of one keyboard from its setting lines: each line
/// `keys -> key` makes the `+`-separated keys, held together, produce `key`
/// (a later line for the same target wins).
pub fn parse_rewire(lines: &Vec<String>) -> (r: Result<Vec<Vec<usize>>, ConfigError>)
    ensures
        table_outcome(r) == rewire_spec(string_views(lines@)),
        r matches Ok(v) ==> v@.len() == KEYCODE_MAX + 1,
{
    let ghost ls = string_views(lines@);
    let mut cfg = empty_combos(KEYCODE_MAX + 1);
    let mut i: usize = 0;
    while i < lines.len()
        invariant
            i <= lines@.len(),
            ls == string_views(lines@),
            cfg@.len() == KEYCODE_MAX + 1,
            rewire_spec(ls.take(i as int)) == Ok::<Seq<Seq<usize>>, (ErrorKind, Seq<char>)>(
                combos_view(cfg@),
            ),
        decreases lines@.len() - i,
    {
        proof {
            assert(ls.take(i + 1).drop_last() =~= ls.take(i as int));
            assert(ls.take(i + 1).last() == lines@[i as int]@);
        }
        match apply_rewire_line(&mut cfg, lines[i].as_str()) {
            Ok(()) => {},
            Err(e) => {
                proof {
                    lemma_rewire_spec_stays_refused(ls, i + 1);
                }
                return Err(e);
            },
        }
        i = i + 1;
    }
    assert(ls.take(lines@.len() as int) =~= ls);
    Ok(cfg)
}

/// The setting lines of each keyboard.
pub open spec fn kbd_lines(v: Seq<Vec<String>>) -> Seq<Seq<Seq<char>>> {
    Seq::new(v.len(), |i: int| string_views(v[i]@))
}

/// The outcome of reading one table per keyboard.
pub type TablesOutcome = Result<Seq<Seq<Seq<usize>>>, (ErrorKind, Seq<char>)>;

/// The keymaps of all keyboards, in keyboard order; the first refused
/// keymap refuses them all.
pub open spec fn keymaps_spec(per_kbd: Seq<Seq<Seq<char>>>) -> TablesOutcome
    decreases per_kbd.len(),
{
    if per_kbd.len() == 0 {
        Ok(Seq::empty())
    } else {
        match keymaps_spec(per_kbd.drop_last()) {
            Err(e) => Err(e),
            Ok(ts) => match keymap_spec(per_kbd.last()) {
                Ok(t) => Ok(ts.push(t)),
                Err(e) => Err(e),
            },
        }
    }
}

/// The rewire tables of all keyboards, in keyboard order; the first refused
/// table refuses them all.
pub open spec fn rewires_spec(per_kbd: Seq<Seq<Seq<char>>>) -> TablesOutcome
    decreases per_kbd.len(),
{
    if per_kbd.len() == 0 {
        Ok(Seq::empty())
    } else {
        match rewires_spec(per_kbd.drop_last()) {
            Err(e) => Err(e),
            Ok(ts) => match rewire_spec(per_kbd.last()) {
                Ok(t) => Ok(ts.push(t)),
                Err(e) => Err(e),
            },
        }
    }
}

/// The view of the tables read in exec code.
pub open spec fn tables_outcome(r: Result<Vec<Vec<Vec<usize>>>, ConfigError>) -> TablesOutcome {
    match r {
        Ok(v) => Ok(tables_view(v@)),
        Err(e) => Err(e@),
    }
}

proof fn lemma_keymaps_stay_refused(ls: Seq<Seq<Seq<char>>>, k: int)
    requires
        0 <= k <= ls.len(),
        keymaps_spec(ls.take(k)) is Err,
    ensures
        keymaps_spec(ls) == keymaps_spec(ls.take(k)),
    decreases ls.len() - k,
{
    if k < ls.len() {
        assert(ls.take(k + 1).drop_last() =~= ls.take(k));
        lemma_keymaps_stay_refused(ls, k + 1);
    } else {
        assert(ls.take(k) =~= ls);
    }
}

proof fn lemma_rewires_stay_refused(ls: Seq<Seq<Seq<char>>>, k: int)
    requires
        0 <= k <= ls.len(),
        rewires_spec(ls.take(k)) is Err,
    ensures
        rewires_spec(ls) == rewires_spec(ls.take(k)),
    decreases ls.len() - k,
{
    if k < ls.len() {
        assert(ls.take(k + 1).drop_last() =~= ls.take(k));
        lemma_rewires_stay_refused(ls, k + 1);
    } else {
        assert(ls.take(k) =~= ls);
    }
}

/// Reads the keymap of every keyboard from its setting lines (see
/// `parse_keymap`); the first refused keymap refuses them all.
pub fn load_keymap_fwd(per_kbd: &Vec<Vec<String>>) -> (r: Result<Vec<Vec<Vec<usize>>>, ConfigError>)
    ensures
        tables_outcome(r) == keymaps_spec(kbd_lines(per_kbd@)),
        r matches Ok(v) ==> v@.len() == per_kbd@.len() && forall|d: int|
            0 <= d < v@.len() ==> #[trigger] v@[d]@.len() == VAR_COUNT,
{
    let ghost ls = kbd_lines(per_kbd@);
    let mut out: Vec<Vec<Vec<usize>>> = Vec::new();
    let mut i: usize = 0;
    assert(ls.take(0) =~= Seq::<Seq<Seq<char>>>::empty());
    assert(tables_view(out@) =~= Seq::<Seq<Seq<usize>>>::empty());
    while i < per_kbd.len()
        invariant
            i <= per_kbd@.len(),
            ls == kbd_lines(per_kbd@),
            out@.len() == i,
            forall|d: int| 0 <= d < i ==> #[trigger] out@[d]@.len() == VAR_COUNT,
            keymaps_spec(ls.take(i as int)) == Ok::<
                Seq<Seq<Seq<usize>>>,
                (ErrorKind, Seq<char>),
            >(tables_view(out@)),
        decreases per_kbd@.len() - i,
    {
        proof {
            assert(ls.take(i + 1).drop_last() =~= ls.take(i as int));
            assert(ls.take(i + 1).last() == string_views(per_kbd@[i as int]@));
        }
        match parse_keymap(&per_kbd[i]) {
            Ok(t) => {
                let ghost before = out@;
                out.push(t);
                assert(tables_view(out@) =~= tables_view(before).push(combos_view(t@)));
            },
            Err(e) => {
                proof {
                    lemma_keymaps_stay_refused(ls, i + 1);
                }
                return Err(e);
            },
        }
        i = i + 1;
    }
    assert(ls.take(per_kbd@.len() as int) =~= ls);
    Ok(out)
}

/// Reads the rewire table of every keyboard from its setting lines (see
/// `parse_rewire`); the first refused table refuses them all.
pub fn load_rewire_fwd(per_kbd: &Vec<Vec<String>>) -> (r: Result<Vec<Vec<Vec<usize>>>, ConfigError>)
    ensures
        tables_outcome(r) == rewires_spec(kbd_lines(per_kbd@)),
        r matches Ok(v) ==> v@.len() == per_kbd@.len() && forall|d: int|
            0 <= d < v@.len() ==> #[trigger] v@[d]@.len() == KEYCODE_MAX + 1,
{
    let ghost ls = kbd_lines(per_kbd@);
    let mut out: Vec<Vec<Vec<usize>>> = Vec::new();
    let mut i: usize = 0;
    assert(ls.take(0) =~= Seq::<Seq<Seq<char>>>::empty());
    assert(tables_view(out@) =~= Seq::<Seq<Seq<usize>>>::empty());
    while i < per_kbd.len()
        invariant
            i <= per_kbd@.len(),
            ls == kbd_lines(per_kbd@),
            out@.len() == i,
            forall|d: int| 0 <= d < i ==> #[trigger] out@[d]@.len() == KEYCODE_MAX + 1,
            rewires_spec(ls.take(i as int)) == Ok::<
                Seq<Seq<Seq<usize>>>,
                (ErrorKind, Seq<char>),
            >(tables_view(out@)),
        decreases per_kbd@.len() - i,
    {
        proof {
            assert(ls.take(i + 1).drop_last() =~= ls.take(i as int));
            assert(ls.take(i + 1).last() == string_views(per_kbd@[i as int]@));
        }
        match parse_rewire(&per_kbd[i]) {
            Ok(t) => {
                let ghost before = out@;
                out.push(t);
                assert(tables_view(out@) =~= tables_view(before).push(combos_view(t@)));
            },
            Err(e) => {
                proof {
                    lemma_rewires_stay_refused(ls, i + 1);
                }
                return Err(e);
            },
        }
        i = i + 1;
    }
    assert(ls.take(per_kbd@.len() as int) =~= ls);
    Ok(out)
}

/// Whether every source key of every rewire target lies in the table, for
/// every keyboard.
pub fn rewire_tables_in_range(fwd: &Vec<Vec<Vec<usize>>>) -> (r: bool)
    requires
        forall|d: int| 0 <= d < fwd@.len() ==> #[trigger] fwd@[d]@.len() == KEYCODE_MAX + 1,
    ensures
        r == forall|d: int|
            0 <= d < fwd@.len() ==> rewire_keys_in_range(#[trigger] tables_view(fwd@)[d]),
{
    let mut d: usize = 0;
    while d < fwd.len()
        invariant
            d <= fwd@.len(),
            forall|e: int| 0 <= e < fwd@.len() ==> #[trigger] fwd@[e]@.len() == KEYCODE_MAX + 1,
            forall|e: int| 0 <= e < d ==> rewire_keys_in_range(#[trigger] tables_view(fwd@)[e]),
        decreases fwd@.len() - d,
    {
        let table = &fwd[d];
        let ghost tv = tables_view(fwd@)[d as int];
        assert(tv == combos_view(table@));
        let mut t: usize = 0;
        while t <= KEYCODE_MAX
            invariant
                t <= KEYCODE_MAX + 1,
                d < fwd@.len(),
                tv == tables_view(fwd@)[d as int],
                table@.len() == KEYCODE_MAX + 1,
                tv == combos_view(table@),
                forall|u: int, j: int|
                    0 <= u < t && 0 <= j < tv[u].len() ==> #[trigger] tv[u][j] <= KEYCODE_MAX,
            decreases KEYCODE_MAX + 1 - t,
        {
            let combo = &table[t];
            let mut j: usize = 0;
            while j < combo.len()
                invariant
                    j <= combo@.len(),
                    t <= KEYCODE_MAX,
                    d < fwd@.len(),
                    tv == tables_view(fwd@)[d as int],
                    tv.len() == KEYCODE_MAX + 1,
                    combo@ == tv[t as int],
                    forall|u: int, i: int|
                        0 <= u < t && 0 <= i < tv[u].len() ==> #[trigger] tv[u][i] <= KEYCODE_MAX,
                    forall|i: int| 0 <= i < j ==> #[trigger] combo@[i] <= KEYCODE_MAX,
                decreases combo@.len() - j,
            {
                if combo[j] > KEYCODE_MAX {
                    assert(tv[t as int][j as int] > KEYCODE_MAX);
                    assert(!rewire_keys_in_range(tv));
                    assert(tables_view(fwd@)[d as int] == tv);
                    return false;
                }
                j = j + 1;
            }
            t = t + 1;
        }
        assert(rewire_keys_in_range(tv));
        d = d + 1;
    }
    true
}

/// The bindings and rewiring of every keyboard, in both directions.
#[derive(Debug)]
pub struct KeyConfig {
    /// Per keyboard: the key combination of each behavior, by behavior index.
    pub keymap_fwd: Vec<Vec<Vec<usize>>>,
    /// Per keyboard: the behaviors related to each key up to `KEYCODE_MAX`.
    pub keymap_rvs: Vec<Vec<Vec<Behavior>>>,
    /// Per keyboard: the source combination of each target key.
    pub rewire_fwd: Vec<Vec<Vec<usize>>>,
    /// Per keyboard: the targets related to each key up to `KEYCODE_MAX`.
    pub rewire_rvs: Vec<Vec<Vec<usize>>>,
}

impl KeyConfig {
    /// Per keyboard, the combination of each behavior.
    pub open spec fn keymap(&self) -> Seq<Seq<Seq<usize>>> {
        tables_view(self.keymap_fwd@)
    }

    /// Per keyboard, the source combination of each target key.
    pub open spec fn rewiring(&self) -> Seq<Seq<Seq<usize>>> {
        tables_view(self.rewire_fwd@)
    }

    /// The number of keyboards configured.
    pub open spec fn keyboards(&self) -> nat {
        self.keymap_fwd@.len()
    }

    /// The combination bound to `b` on keyboard `d`.
    pub open spec fn combo(&self, d: int, b: Behavior) -> Seq<usize> {
        self.keymap()[d][index_of(b)]
    }

    pub open spec fn wf(&self) -> bool {
        &&& self.keymap_rvs@.len() == self.keyboards()
        &&& self.rewire_fwd@.len() == self.keyboards()
        &&& self.rewire_rvs@.len() == self.keyboards()
        &&& forall|d: int| 0 <= d < self.keyboards() ==> #[trigger] self.keymap_fwd@[d]@.len() == VAR_COUNT
        &&& forall|d: int|
            0 <= d < self.keyboards() ==> #[trigger] self.rewire_fwd@[d]@.len() == KEYCODE_MAX + 1
        &&& forall|d: int|
            0 <= d < self.keyboards() ==> #[trigger] behavior_tables_view(self.keymap_rvs@)[d]
                == keymap_reverse(self.keymap()[d])
        &&& forall|d: int|
            0 <= d < self.keyboards() ==> #[trigger] tables_view(self.rewire_rvs@)[d]
                == rewire_reverse(self.rewiring()[d])
        &&& forall|d: int|
            0 <= d < self.keyboards() ==> rewire_keys_in_range(#[trigger] self.rewiring()[d])
    }

    /// The combination bound to `behavior` on keyboard `kbd_idx`, or `None`
    /// when the behavior is unbound there.
    pub fn get_combo(&self, kbd_idx: usize, behavior: Behavior) -> (r: Option<&Vec<usize>>)
        requires
            self.wf(),
            kbd_idx < self.keyboards(),
        ensures
            match r {
                Some(c) => c@ == self.combo(kbd_idx as int, behavior) && c@.len() > 0,
                None => self.combo(kbd_idx as int, behavior).len() == 0,
            },
    {
        let table = &self.keymap_fwd[kbd_idx];
        let combo = &table[behavior.index()];
        assert(self.keymap()[kbd_idx as int] == combos_view(table@));
        if combo.len() == 0 {
            None
        } else {
            Some(combo)
        }
    }

    /// The behaviors whose combination on keyboard `kbd_idx` holds key
    /// `key_code` (once per occurrence, in behavior order), or `None` when
    /// the key lies beyond the table.
    pub fn get_related_behaviors(&self, kbd_idx: usize, key_code: usize) -> (r: Option<&Vec<Behavior>>)
        requires
            self.wf(),
            kbd_idx < self.keyboards(),
        ensures
            match r {
                Some(v) => key_code <= KEYCODE_MAX && v@ == keymap_reverse(
                    self.keymap()[kbd_idx as int],
                )[key_code as int],
                None => key_code > KEYCODE_MAX,
            },
    {
        let table = &self.keymap_rvs[kbd_idx];
        assert(behavior_tables_view(self.keymap_rvs@)[kbd_idx as int] == behavior_lists_view(
            table@,
        ));
        if key_code < table.len() {
            Some(&table[key_code])
        } else {
            None
        }
    }

    /// Rewires a key event of keyboard `dev_idx`: the first target related
    /// to the event's key whose source combination is physically held
    /// (the event's own key aside) replaces the key; otherwise the event is
    /// unchanged.
    pub fn rewire(&self, origin: KeyEvent, dev_idx: usize, press: &PressState) -> (r: KeyEvent)
        requires
            self.wf(),
        ensures
            r == rewire_event(self.rewiring(), press.physical@, dev_idx as int, origin),
    {
        let original_code = origin.code as usize;
        if dev_idx >= self.rewire_rvs.len() {
            return origin;
        }
        let rvs = &self.rewire_rvs[dev_idx];
        let fwd = &self.rewire_fwd[dev_idx];
        let ghost fv = self.rewiring()[dev_idx as int];
        assert(fv == combos_view(fwd@));
        assert(tables_view(self.rewire_rvs@)[dev_idx as int] == combos_view(rvs@));
        if original_code >= rvs.len() {
            return origin;
        }
        let targets = &rvs[original_code];
        let ghost all = targets@;
        assert(all == rewire_reverse(fv)[original_code as int]);
        proof {
            lemma_slots_below(fv, original_code, KEYCODE_MAX + 1);
        }
        let mut i: usize = 0;
        assert(all.skip(0) =~= all);
        while i < targets.len()
            invariant
                i <= targets@.len(),
                all == targets@,
                original_code == origin.code,
                original_code <= KEYCODE_MAX,
                0 <= dev_idx < self.rewiring().len(),
                fv == self.rewiring()[dev_idx as int],
                all == rewire_reverse(fv)[original_code as int],
                fwd@.len() == KEYCODE_MAX + 1,
                fv == combos_view(fwd@),
                forall|j: int| 0 <= j < all.len() ==> all[j] <= KEYCODE_MAX,
                first_rewired(all, fv, press.physical@, original_code) == first_rewired(
                    all.skip(i as int),
                    fv,
                    press.physical@,
                    original_code,
                ),
            decreases targets@.len() - i,
        {
            let target = targets[i];
            let combo = &fwd[target];
            assert(all.skip(i as int)[0] == target);
            assert(all.skip(i as int).drop_first() =~= all.skip(i + 1));
            assert(combo@ == fv[target as int]);
            if press.physically_all_pressed(combo.as_slice(), Some(original_code)) {
                return KeyEvent { event_type: origin.event_type, code: target as u16, value: origin.value };
            }
            i = i + 1;
        }
        origin
    }
}

/// The first of `targets` whose source combination in `fwd` is physically
/// held, `code` aside.
pub open spec fn first_rewired(targets: Seq<usize>, fwd: Seq<Seq<usize>>, physical: Seq<bool>, code: usize) -> Option<usize>
    decreases targets.len(),
{
    if targets.len() == 0 {
        None
    } else if all_held(physical, fwd[targets[0] as int], Some(code)) {
        Some(targets[0])
    } else {
        first_rewired(targets.drop_first(), fwd, physical, code)
    }
}

/// A key event of keyboard `d` after rewiring with the tables `rewiring`.
pub open spec fn rewire_event(rewiring: Seq<Seq<Seq<usize>>>, physical: Seq<bool>, d: int, ev: KeyEvent) -> KeyEvent {
    if 0 <= d < rewiring.len() && ev.code <= KEYCODE_MAX {
        let fwd = rewiring[d];
        match first_rewired(rewire_reverse(fwd)[ev.code as int], fwd, physical, ev.code as usize) {
            Some(t) => KeyEvent { event_type: ev.event_type, code: t as u16, value: ev.value },
            None => ev,
        }
    } else {
        ev
    }
}

/// The rewire tables were read, and one of them has a source key beyond
/// the table.
pub open spec fn out_of_range(out: TablesOutcome) -> bool {
    &&& out is Ok
    &&& exists|d: int| 0 <= d < out->Ok_0.len() && !rewire_keys_in_range(#[trigger] out->Ok_0[d])
}

proof fn lemma_out_of_range(t: Seq<Seq<Seq<usize>>>, d0: int)
    requires
        0 <= d0 < t.len(),
        !rewire_keys_in_range(t[d0]),
    ensures
        out_of_range(Ok::<Seq<Seq<Seq<usize>>>, (ErrorKind, Seq<char>)>(t)),
{
    let o = Ok::<Seq<Seq<Seq<usize>>>, (ErrorKind, Seq<char>)>(t);
    assert(o->Ok_0 == t);
    assert(!rewire_keys_in_range(o->Ok_0[d0]));
}

/// Reads and indexes the bindings and rewiring of every keyboard from their
/// setting lines: keymaps first, then rewire tables, then the range of
/// the rewire source keys.
pub fn initialize(keymap_lines: &Vec<Vec<String>>, rewire_lines: &Vec<Vec<String>>) -> (r: Result<KeyConfig, ConfigError>)
    requires
        keymap_lines@.len() == rewire_lines@.len(),
    ensures
        match r {
            Ok(c) => {
                &&& c.wf()
                &&& c.keyboards() == keymap_lines@.len()
                &&& keymaps_spec(kbd_lines(keymap_lines@)) == Ok::<Seq<Seq<Seq<usize>>>, (ErrorKind, Seq<char>)>(c.keymap())
                &&& rewires_spec(kbd_lines(rewire_lines@)) == Ok::<Seq<Seq<Seq<usize>>>, (ErrorKind, Seq<char>)>(c.rewiring())
            },
            Err(e) => {
                ||| keymaps_spec(kbd_lines(keymap_lines@)) == Err::<Seq<Seq<Seq<usize>>>, (ErrorKind, Seq<char>)>(e@)
                ||| (keymaps_spec(kbd_lines(keymap_lines@)) is Ok && rewires_spec(kbd_lines(rewire_lines@))
                    == Err::<Seq<Seq<Seq<usize>>>, (ErrorKind, Seq<char>)>(e@))
                ||| {
                    &&& keymaps_spec(kbd_lines(keymap_lines@)) is Ok
                    &&& out_of_range(rewires_spec(kbd_lines(rewire_lines@)))
                    &&& e@ == (ErrorKind::RewireKeyOutOfRange, Seq::<char>::empty())
                }
            },
        },
{
    let keymap_fwd = load_keymap_fwd(keymap_lines)?;
    let keymap_rvs = load_keymap_rvs(&keymap_fwd);
    let rewire_fwd = load_rewire_fwd(rewire_lines)?;
    if !rewire_tables_in_range(&rewire_fwd) {
        let e = ConfigError { kind: ErrorKind::RewireKeyOutOfRange, text: String::new() };
        proof {
            let t = tables_view(rewire_fwd@);
            assert(rewires_spec(kbd_lines(rewire_lines@)) == Ok::<Seq<Seq<Seq<usize>>>, (ErrorKind, Seq<char>)>(t));
            assert(keymaps_spec(kbd_lines(keymap_lines@)) is Ok);
            assert(!(forall|d: int| 0 <= d < t.len() ==> rewire_keys_in_range(#[trigger] t[d])));
            let d0 = choose|d: int| 0 <= d < t.len() && !rewire_keys_in_range(#[trigger] t[d]);
            assert(!rewire_keys_in_range(t[d0]));
            lemma_out_of_range(t, d0);
        }
        return Err(e);
    }
    let rewire_rvs = load_rewire_rvs(&rewire_fwd);
    Ok(KeyConfig { keymap_fwd, keymap_rvs, rewire_fwd, rewire_rvs })
}


proof fn lemma_count_positive(s: Seq<usize>, k: usize)
    ensures
        count(s, k) > 0 <==> s.contains(k),
    decreases s.len(),
{
    if s.len() > 0 {
        lemma_count_positive(s.drop_last(), k);
        let t = s.drop_last();
        if t.contains(k) {
            let i = choose|i: int| 0 <= i < t.len() && t[i] == k;
            assert(s[i] == k);
        }
        if s.contains(k) && s.last() != k {
            let i = choose|i: int| 0 <= i < s.len() && s[i] == k;
            assert(t[i] == k);
        }
        if s.last() == k {
            assert(s[s.len() - 1] == k);
        }
    }
}

proof fn lemma_slots_with_contains(table: Seq<Seq<usize>>, k: usize, n: int, slot: usize)
    requires
        0 <= n <= KEYCODE_MAX + 1,
    ensures
        slots_with(table, k, n).contains(slot) <==> (slot < n && count(table[slot as int], k) > 0),
    decreases n,
{
    if n > 0 {
        lemma_slots_with_contains(table, k, n - 1, slot);
        let prev = slots_with(table, k, n - 1);
        let rep = repeat((n - 1) as usize, count(table[n - 1], k));
        let all = prev + rep;
        lemma_slots_below(table, k, n - 1);
        assert(slots_with(table, k, n) == all);
        if prev.contains(slot) {
            let i = choose|i: int| 0 <= i < prev.len() && prev[i] == slot;
            assert(all[i] == slot);
        }
        if slot == n - 1 && count(table[n - 1], k) > 0 {
            assert(all[prev.len() as int] == slot);
        }
        if all.contains(slot) {
            let i = choose|i: int| 0 <= i < all.len() && all[i] == slot;
            if i >= prev.len() {
                assert(rep[i - prev.len()] == slot);
                assert(slot == n - 1);
            } else {
                assert(prev[i] == slot);
                assert(slot < n - 1);
            }
        }
    }
}

/// The two directions of a keymap agree: a behavior is related to key `k`
/// exactly when its combination holds `k`.
pub proof fn lemma_related_iff_bound(fwd: Seq<Seq<usize>>, k: usize, b: Behavior)
    requires
        fwd.len() == VAR_COUNT,
    ensures
        related_spec(fwd, k).contains(b) <==> fwd[index_of(b)].contains(k),
{
    lemma_index_of(b);
    let slots = slots_with(fwd, k, VAR_COUNT as int);
    let rel = related_spec(fwd, k);
    lemma_slots_with_contains(fwd, k, VAR_COUNT as int, index_of(b) as usize);
    lemma_count_positive(fwd[index_of(b)], k);
    lemma_slots_below(fwd, k, VAR_COUNT as int);
    if slots.contains(index_of(b) as usize) {
        let i = choose|i: int| 0 <= i < slots.len() && slots[i] == index_of(b) as usize;
        assert(rel[i] == b);
    }
    if rel.contains(b) {
        let i = choose|i: int| 0 <= i < rel.len() && rel[i] == b;
        lemma_behavior_at(slots[i] as int);
        assert(slots[i] == index_of(b));
    }
}

/// The two directions of a rewire table agree: a target is related to key
/// `k` exactly when it lies in the table and its source combination holds
/// `k`.
pub proof fn lemma_rewire_targets(fwd: Seq<Seq<usize>>, k: usize, t: usize)
    requires
        fwd.len() == KEYCODE_MAX + 1,
        k <= KEYCODE_MAX,
    ensures
        rewire_reverse(fwd)[k as int].contains(t) <==> (t <= KEYCODE_MAX && fwd[t as int].contains(k)),
{
    lemma_slots_with_contains(fwd, k, KEYCODE_MAX + 1, t);
    if t <= KEYCODE_MAX {
        lemma_count_positive(fwd[t as int], k);
    }
}

proof fn lemma_first_rewired(targets: Seq<usize>, fwd: Seq<Seq<usize>>, physical: Seq<bool>, code: usize)
    ensures
        first_rewired(targets, fwd, physical, code) matches Some(t) ==> targets.contains(t) && all_held(
            physical,
            fwd[t as int],
            Some(code),
        ),
    decreases targets.len(),
{
    if targets.len() > 0 {
        lemma_first_rewired(targets.drop_first(), fwd, physical, code);
        if let Some(t) = first_rewired(targets.drop_first(), fwd, physical, code) {
            let i = choose|i: int| 0 <= i < targets.drop_first().len() && targets.drop_first()[i] == t;
            assert(targets[i + 1] == t);
        }
        assert(targets[0] == targets[0]);
    }
}

/// Rewiring only changes the key, and only to a target whose source
/// combination holds the original key and is physically held (the
/// original key aside); a key that no source combination holds is never
/// rewired.
pub proof fn lemma_rewire_sound(rewiring: Seq<Seq<Seq<usize>>>, physical: Seq<bool>, d: int, ev: KeyEvent)
    requires
        0 <= d < rewiring.len(),
        rewiring[d].len() == KEYCODE_MAX + 1,
    ensures
        ({
            let r = rewire_event(rewiring, physical, d, ev);
            &&& r.event_type == ev.event_type
            &&& r.value == ev.value
            &&& r != ev ==> {
                &&& ev.code <= KEYCODE_MAX
                &&& r.code <= KEYCODE_MAX
                &&& rewiring[d][r.code as int].contains(ev.code as usize)
                &&& all_held(physical, rewiring[d][r.code as int], Some(ev.code as usize))
            }
            &&& (forall|t: int| 0 <= t <= KEYCODE_MAX ==> !#[trigger] rewiring[d][t].contains(ev.code as usize)) ==> r == ev
        }),
{
    let fwd = rewiring[d];
    if ev.code <= KEYCODE_MAX {
        let targets = rewire_reverse(fwd)[ev.code as int];
        lemma_first_rewired(targets, fwd, physical, ev.code as usize);
        if let Some(t) = first_rewired(targets, fwd, physical, ev.code as usize) {
            lemma_rewire_targets(fwd, ev.code as usize, t);
        }
    }
}

/// Reading a rewire line `keys -> to` sets the source combination of
/// target `to` and of no other target: the table read agrees with the
/// previous one everywhere else, and its slot `to` holds the line's keys.
pub proof fn lemma_rewire_line_sets_one_target(cfg: Seq<Seq<usize>>, line: Seq<char>)
    requires
        cfg.len() == KEYCODE_MAX + 1,
    ensures
        rewire_line(cfg, line) matches Ok(t) ==> ({
            let parts = split_spec(line, "->"@);
            let to = evdev_key_code(key_name(parts[1])).unwrap() as int;
            &&& t.len() == cfg.len()
            &&& forall|j: int| 0 <= j < cfg.len() && j != to ==> #[trigger] t[j] == cfg[j]
            &&& to <= KEYCODE_MAX
            &&& key_codes(split_spec(parts[0], "+"@)) == Some(t[to])
        }),
{
    let parts = split_spec(line, "->"@);
    if parts.len() == 2 {
        if let Some(to) = evdev_key_code(key_name(parts[1])) {
            if let Some(keys) = key_codes(split_spec(parts[0], "+"@)) {
                if to <= KEYCODE_MAX {
                    let t = cfg.update(to as int, keys);
                    assert(rewire_line(cfg, line) == Ok::<Seq<Seq<usize>>, (ErrorKind, Seq<char>)>(t));
                    assert(forall|j: int| 0 <= j < cfg.len() && j != to ==> #[trigger] t[j] == cfg[j]);
                }
            }
        }
    }
}

/// Key `k` is among the source keys of one of the rewire lines.
pub open spec fn in_some_source(lines: Seq<Seq<char>>, k: usize) -> bool {
    exists|i: int|
        0 <= i < lines.len() && (key_codes(
            split_spec(split_spec(#[trigger] lines[i], "->"@)[0], "+"@),
        ) matches Some(cs) && cs.contains(k))
}

/// A rewire table read from lines has a slot for every key, and only keys
/// that occur on the source side of some line appear in it.
pub proof fn lemma_rewire_table_sources(lines: Seq<Seq<char>>, k: usize)
    ensures
        rewire_spec(lines) matches Ok(t) ==> {
            &&& t.len() == KEYCODE_MAX + 1
            &&& !in_some_source(lines, k) ==> forall|j: int| 0 <= j < t.len() ==> !(#[trigger] t[j]).contains(k)
        },
    decreases lines.len(),
{
    if lines.len() > 0 {
        let prev = lines.drop_last();
        lemma_rewire_table_sources(prev, k);
        if let Ok(t) = rewire_spec(lines) {
            let t0 = rewire_spec(prev)->Ok_0;
            assert(rewire_spec(prev) is Ok);
            lemma_rewire_line_sets_one_target(t0, lines.last());
            if !in_some_source(lines, k) {
                assert(!in_some_source(prev, k)) by {
                    if in_some_source(prev, k) {
                        let i = choose|i: int|
                            0 <= i < prev.len() && (key_codes(
                                split_spec(split_spec(#[trigger] prev[i], "->"@)[0], "+"@),
                            ) matches Some(cs) && cs.contains(k));
                        assert(lines[i] == prev[i]);
                    }
                }
                let parts = split_spec(lines.last(), "->"@);
                let to = evdev_key_code(key_name(parts[1])).unwrap() as int;
                assert(!(key_codes(split_spec(parts[0], "+"@)) matches Some(cs) && cs.contains(k))) by {
                    let i = lines.len() - 1;
                    assert(lines[i] == lines.last());
                    if key_codes(split_spec(parts[0], "+"@)) matches Some(cs) && cs.contains(k) {
                        assert(0 <= i < lines.len() && (key_codes(
                            split_spec(split_spec(lines[i], "->"@)[0], "+"@),
                        ) matches Some(cs) && cs.contains(k)));
                    }
                }
                assert forall|j: int| 0 <= j < t.len() implies !(#[trigger] t[j]).contains(k) by {
                    if j != to {
                        assert(t[j] == t0[j]);
                    }
                }
            }
        }
    }
}

/// A key that occurs on the source side of no rewire line is never
/// rewired: its events leave rewiring unchanged, whatever is held.
pub proof fn lemma_unlisted_key_not_rewired(
    rewiring: Seq<Seq<Seq<usize>>>,
    d: int,
    lines: Seq<Seq<char>>,
    physical: Seq<bool>,
    ev: KeyEvent,
)
    requires
        0 <= d < rewiring.len(),
        rewire_spec(lines) == Ok::<Seq<Seq<usize>>, (ErrorKind, Seq<char>)>(rewiring[d]),
        !in_some_source(lines, ev.code as usize),
    ensures
        rewire_event(rewiring, physical, d, ev) == ev,
{
    lemma_rewire_table_sources(lines, ev.code as usize);
    lemma_rewire_sound(rewiring, physical, d, ev);
}

} // verus!
