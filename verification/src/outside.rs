//! The calls this library makes into code it does not verify: std's
//! Unicode upper-casing, evdev's key-name table, and arrayvec's bounded
//! vectors. Each item's contract is taken on trust; its doc comment says
//! what is claimed.
use vstd::prelude::*;
use arrayvec::ArrayVec;
use crate::device::vmouse::{Behavior, MouseEvent};
use crate::text::{ascii_upper, is_ascii_text};

verus! {

/// What `str::to_uppercase` returns for a string with the given characters.
pub uninterp spec fn uppercase(s: Seq<char>) -> Seq<char>;

/// Calls `str::to_uppercase`. Claimed: the result depends on the
/// characters of `s` alone (std's fixed Unicode tables), and on ASCII text
/// it upper-cases `a`..`z` and keeps every other character (the Unicode
/// upper case mapping of the ASCII range). Nothing is stated of the mapping
/// beyond ASCII.
#[verifier::external_body]
pub(crate) fn to_uppercase(s: &str) -> (r: String)
    ensures
        r@ == uppercase(s@),
        is_ascii_text(s@) ==> r@ == ascii_upper(s@),
{
    s.to_uppercase()
}

/// The code that evdev's key-name table gives a name, if the name is in it.
pub uninterp spec fn evdev_key_code(name: Seq<char>) -> Option<u16>;

/// Calls `<evdev::KeyCode as FromStr>::from_str`, which looks `name` up in
/// evdev's fixed table of scancode names (exact match). Claimed: the
/// result depends on the characters of `name` alone; `None` stands for
/// evdev's `EnumParseError`. The table's contents are not stated.
#[verifier::external_body]
pub(crate) fn key_code_from_name(name: &str) -> (r: Option<u16>)
    ensures
        r == evdev_key_code(name@),
{
    match <evdev::KeyCode as std::str::FromStr>::from_str(name) {
        Ok(code) => Some(code.0),
        Err(_) => None,
    }
}

#[verifier::external_type_specification]
#[verifier::external_body]
#[verifier::reject_recursive_types(T)]
pub struct ExArrayVec<T, const CAP: usize>(ArrayVec<T, CAP>);

/// The behaviors an `ArrayVec<Behavior, 16>` holds, in order.
pub uninterp spec fn behaviors16(v: ArrayVec<Behavior, 16>) -> Seq<Behavior>;

/// The behaviors an `ArrayVec<Behavior, 17>` holds, in order.
pub uninterp spec fn behaviors17(v: ArrayVec<Behavior, 17>) -> Seq<Behavior>;

/// The mouse events an `ArrayVec<MouseEvent, 2>` holds, in order.
pub uninterp spec fn mouse_events2(v: ArrayVec<MouseEvent, 2>) -> Seq<MouseEvent>;

/// Calls `ArrayVec::<Behavior, 16>::new`: an empty vector.
#[verifier::external_body]
pub(crate) fn behaviors16_new() -> (r: ArrayVec<Behavior, 16>)
    ensures
        behaviors16(r) == Seq::<Behavior>::empty(),
{
    ArrayVec::new()
}

/// Calls `ArrayVec::<Behavior, 16>::push`, which appends `b` and panics
/// when the vector already holds 16 items.
#[verifier::external_body]
pub(crate) fn behaviors16_push(v: &mut ArrayVec<Behavior, 16>, b: Behavior)
    requires
        behaviors16(*old(v)).len() < 16,
    ensures
        behaviors16(*final(v)) == behaviors16(*old(v)).push(b),
{
    v.push(b)
}

/// Calls `ArrayVec::<Behavior, 16>::clear`: afterwards the vector is empty.
#[verifier::external_body]
pub(crate) fn behaviors16_clear(v: &mut ArrayVec<Behavior, 16>)
    ensures
        behaviors16(*final(v)) == Seq::<Behavior>::empty(),
{
    v.clear()
}

/// Calls `ArrayVec::<Behavior, 16>::as_slice`: the items in order.
#[verifier::external_body]
pub(crate) fn behaviors16_slice(v: &ArrayVec<Behavior, 16>) -> (r: &[Behavior])
    ensures
        r@ == behaviors16(*v),
{
    v.as_slice()
}

/// Calls `ArrayVec::<Behavior, 17>::new`: an empty vector.
#[verifier::external_body]
pub(crate) fn behaviors17_new() -> (r: ArrayVec<Behavior, 17>)
    ensures
        behaviors17(r) == Seq::<Behavior>::empty(),
{
    ArrayVec::new()
}

/// Calls `ArrayVec::<Behavior, 17>::push`, which appends `b` and panics
/// when the vector already holds 17 items.
#[verifier::external_body]
pub(crate) fn behaviors17_push(v: &mut ArrayVec<Behavior, 17>, b: Behavior)
    requires
        behaviors17(*old(v)).len() < 17,
    ensures
        behaviors17(*final(v)) == behaviors17(*old(v)).push(b),
{
    v.push(b)
}

/// Calls `Extend::extend` of `ArrayVec<Behavior, 17>` with the items of
/// `other`, appending them in order; it panics when they do not fit.
#[verifier::external_body]
pub(crate) fn behaviors17_extend(v: &mut ArrayVec<Behavior, 17>, other: ArrayVec<Behavior, 16>)
    requires
        behaviors17(*old(v)).len() + behaviors16(other).len() <= 17,
    ensures
        behaviors17(*final(v)) == behaviors17(*old(v)) + behaviors16(other),
{
    v.extend(other)
}

/// Calls `ArrayVec::<Behavior, 17>::as_slice`: the items in order.
#[verifier::external_body]
pub(crate) fn behaviors17_slice(v: &ArrayVec<Behavior, 17>) -> (r: &[Behavior])
    ensures
        r@ == behaviors17(*v),
{
    v.as_slice()
}

/// Calls `ArrayVec::<MouseEvent, 2>::new`: an empty vector.
#[verifier::external_body]
pub(crate) fn mouse_events2_new() -> (r: ArrayVec<MouseEvent, 2>)
    ensures
        mouse_events2(r) == Seq::<MouseEvent>::empty(),
{
    ArrayVec::new()
}

/// Calls `ArrayVec::<MouseEvent, 2>::push`, which appends `e` and panics
/// when the vector already holds 2 items.
#[verifier::external_body]
pub(crate) fn mouse_events2_push(v: &mut ArrayVec<MouseEvent, 2>, e: MouseEvent)
    requires
        mouse_events2(*old(v)).len() < 2,
    ensures
        mouse_events2(*final(v)) == mouse_events2(*old(v)).push(e),
{
    v.push(e)
}

} // verus!
