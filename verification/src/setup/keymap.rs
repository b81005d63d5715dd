//! One keyboard's reverse keymap, and a one-to-one key remapping table
//! (`from -> to`, one key each side).
use vstd::prelude::*;
use crate::config::keymap::{
    behavior_lists_view, combos_view, evdev_key_code_of, key_name, keymap_reverse, lemma_slots_below,
    related_spec, slots_holding, slots_with,
};
use crate::config::{ConfigError, ErrorKind, KEYCODE_MAX};
use crate::device::keyboards::KeyEvent;
use crate::device::vmouse::{behavior_at, lemma_behavior_at, Behavior, VAR_COUNT};
use crate::outside::evdev_key_code;
use crate::text::{split, split_spec, string_views, views};

verus! {

/// The reverse of one keymap: for each key up to `KEYCODE_MAX`, the
/// behaviors whose combination holds it (once per occurrence, in behavior
/// order).
pub fn load_rvs(table: &Vec<Vec<usize>>) -> (r: Vec<Vec<Behavior>>)
    requires
        table@.len() == VAR_COUNT,
    ensures
        behavior_lists_view(r@) == keymap_reverse(combos_view(table@)),
{
    let ghost tv = combos_view(table@);
    let mut per_key: Vec<Vec<Behavior>> = Vec::new();
    let mut k: usize = 0;
    while k <= KEYCODE_MAX
        invariant
            k <= KEYCODE_MAX + 1,
            table@.len() == VAR_COUNT,
            tv == combos_view(table@),
            per_key@.len() == k,
            forall|j: int|
                0 <= j < k ==> #[trigger] behavior_lists_view(per_key@)[j] == related_spec(
                    tv,
                    j as usize,
                ),
        decreases KEYCODE_MAX + 1 - k,
    {
        let slots = slots_holding(table, k, VAR_COUNT);
        proof {
            lemma_slots_below(tv, k, VAR_COUNT as int);
        }
        let mut list: Vec<Behavior> = Vec::new();
        let mut i: usize = 0;
        while i < slots.len()
            invariant
                i <= slots@.len(),
                slots@ == slots_with(tv, k, VAR_COUNT as int),
                forall|j: int| 0 <= j < slots@.len() ==> slots@[j] < VAR_COUNT,
                list@.len() == i,
                forall|j: int| 0 <= j < i ==> list@[j] == behavior_at(slots@[j] as int).unwrap(),
            decreases slots@.len() - i,
        {
            proof {
                lemma_behavior_at(slots@[i as int] as int);
            }
            let b = Behavior::from_usize(slots[i]).unwrap();
            list.push(b);
            i = i + 1;
        }
        assert(list@ =~= related_spec(tv, k));
        let ghost before = per_key@;
        per_key.push(list);
        proof {
            assert forall|j: int|
                0 <= j < k + 1 implies #[trigger] behavior_lists_view(per_key@)[j] == related_spec(
                tv,
                j as usize,
            ) by {
                if j < k {
                    assert(per_key@[j] == before[j]);
                    assert(behavior_lists_view(before)[j] == related_spec(tv, j as usize));
                }
            }
        }
        k = k + 1;
    }
    assert(behavior_lists_view(per_key@) =~= keymap_reverse(tv));
    per_key
}

/// The remapping table before any line: each key up to `KEYCODE_MAX` maps
/// to itself.
pub open spec fn identity_map() -> Seq<u16> {
    Seq::new((KEYCODE_MAX + 1) as nat, |i: int| i as u16)
}

/// The outcome of reading a remapping table.
pub type MapOutcome = Result<Seq<u16>, (ErrorKind, Seq<char>)>;

/// A line `from -> to` applied to a remapping table: checked in this order,
/// the line has one `->`, both keys are known to evdev, `from` lies in the
/// table.
pub open spec fn remap_line(t: Seq<u16>, line: Seq<char>) -> MapOutcome {
    let parts = split_spec(line, "->"@);
    if parts.len() != 2 {
        Err((ErrorKind::InvalidRewireLine, line))
    } else {
        match (evdev_key_code(key_name(parts[0])), evdev_key_code(key_name(parts[1]))) {
            (Some(from), Some(to)) => if from > KEYCODE_MAX {
                Err((ErrorKind::RewireKeyOutOfRange, line))
            } else {
                Ok(t.update(from as int, to))
            },
            _ => Err((ErrorKind::UnknownRewireKey, line)),
        }
    }
}

/// The remapping table read from setting lines; the first bad line
/// refuses it.
pub open spec fn remap_spec(lines: Seq<Seq<char>>) -> MapOutcome
    decreases lines.len(),
{
    if lines.len() == 0 {
        Ok(identity_map())
    } else {
        match remap_spec(lines.drop_last()) {
            Ok(t) => remap_line(t, lines.last()),
            Err(e) => Err(e),
        }
    }
}

pub open spec fn map_outcome(r: Result<Vec<u16>, ConfigError>) -> MapOutcome {
    match r {
        Ok(v) => Ok(v@),
        Err(e) => Err(e@),
    }
}

proof fn lemma_remap_stays_refused(ls: Seq<Seq<char>>, k: int)
    requires
        0 <= k <= ls.len(),
        remap_spec(ls.take(k)) is Err,
    ensures
        remap_spec(ls) == remap_spec(ls.take(k)),
    decreases ls.len() - k,
{
    if k < ls.len() {
        assert(ls.take(k + 1).drop_last() =~= ls.take(k));
        lemma_remap_stays_refused(ls, k + 1);
    } else {
        assert(ls.take(k) =~= ls);
    }
}

/// Reads a one-to-one remapping table from setting lines `from -> to`
/// (see `remap_spec`).
pub fn load_rewire_map(lines: &Vec<String>) -> (r: Result<Vec<u16>, ConfigError>)
    ensures
        map_outcome(r) == remap_spec(string_views(lines@)),
{
    let ghost ls = string_views(lines@);
    let mut table: Vec<u16> = Vec::new();
    let mut i: usize = 0;
    while i <= KEYCODE_MAX
        invariant
            i <= KEYCODE_MAX + 1,
            table@ =~= identity_map().take(i as int),
        decreases KEYCODE_MAX + 1 - i,
    {
        table.push(i as u16);
        i = i + 1;
    }
    assert(table@ =~= identity_map());
    let arrow = "->";
    proof {
        reveal_strlit("->");
    }
    let mut n: usize = 0;
    assert(ls.take(0) =~= Seq::<Seq<char>>::empty());
    while n < lines.len()
        invariant
            n <= lines@.len(),
            ls == string_views(lines@),
            table@.len() == KEYCODE_MAX + 1,
            arrow@ == "->"@,
            arrow@.len() == 2,
            remap_spec(ls.take(n as int)) == Ok::<Seq<u16>, (ErrorKind, Seq<char>)>(table@),
        decreases lines@.len() - n,
    {
        proof {
            assert(ls.take(n + 1).drop_last() =~= ls.take(n as int));
            assert(ls.take(n + 1).last() == lines@[n as int]@);
        }
        let line = lines[n].as_str();
        let parts = split(line, arrow);
        if parts.len() != 2 {
            proof {
                lemma_remap_stays_refused(ls, n + 1);
            }
            return Err(ConfigError { kind: ErrorKind::InvalidRewireLine, text: line.to_owned() });
        }
        assert(views(parts@)[0] == parts@[0]@);
        assert(views(parts@)[1] == parts@[1]@);
        let from = evdev_key_code_of(parts[0]);
        let to = evdev_key_code_of(parts[1]);
        match (from, to) {
            (Some(f), Some(t)) => {
                if f as usize > KEYCODE_MAX {
                    proof {
                        lemma_remap_stays_refused(ls, n + 1);
                    }
                    return Err(
                        ConfigError { kind: ErrorKind::RewireKeyOutOfRange, text: line.to_owned() },
                    );
                }
                table.set(f as usize, t);
            },
            _ => {
                proof {
                    lemma_remap_stays_refused(ls, n + 1);
                }
                return Err(ConfigError { kind: ErrorKind::UnknownRewireKey, text: line.to_owned() });
            },
        }
        n = n + 1;
    }
    assert(ls.take(lines@.len() as int) =~= ls);
    Ok(table)
}

/// Remaps a key event through a one-to-one table: the key becomes what the
/// table maps it to.
pub fn rewire(table: &Vec<u16>, origin: KeyEvent) -> (r: KeyEvent)
    requires
        table@.len() == KEYCODE_MAX + 1,
        origin.code <= KEYCODE_MAX,
    ensures
        r == (KeyEvent { event_type: origin.event_type, code: table@[origin.code as int], value: origin.value }),
{
    KeyEvent { event_type: origin.event_type, code: table[origin.code as usize], value: origin.value }
}

} // verus!
