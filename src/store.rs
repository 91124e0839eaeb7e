use vstd::prelude::*;

use slab::Slab;

verus! {

/// What the queue keeps per entry in the slab: the millisecond at which it is due, and
/// whether it went straight to the past-due list.
pub type SlotData = (u64, bool);

#[verifier::external_type_specification]
#[verifier::external_body]
#[verifier::reject_recursive_types(T)]
pub struct ExSlab<T>(Slab<T>);

/// The occupied entries of a slab, by key.
pub uninterp spec fn slab_entries(s: Slab<SlotData>) -> Map<usize, SlotData>;

/// Relies on `Slab::with_capacity`: a slab with no entries.
#[verifier::external_body]
pub(crate) fn slab_with_capacity(capacity: usize) -> (r: Slab<SlotData>)
    ensures
        slab_entries(r).dom() == Set::<usize>::empty(),
{
    Slab::with_capacity(capacity)
}

/// Relies on `Slab::insert`: the value goes in at a key that was vacant, which is returned.
#[verifier::external_body]
pub(crate) fn slab_insert(s: &mut Slab<SlotData>, val: SlotData) -> (r: usize)
    ensures
        !slab_entries(*old(s)).contains_key(r),
        slab_entries(*final(s)) == slab_entries(*old(s)).insert(r, val),
{
    s.insert(val)
}

/// Relies on `Slab::remove`: the value at an occupied key is taken out and returned
/// (it panics on a vacant key, which `requires` leaves out).
#[verifier::external_body]
pub(crate) fn slab_remove(s: &mut Slab<SlotData>, key: usize) -> (r: SlotData)
    requires
        slab_entries(*old(s)).contains_key(key),
    ensures
        r == slab_entries(*old(s))[key],
        slab_entries(*final(s)) == slab_entries(*old(s)).remove(key),
{
    s.remove(key)
}

/// Relies on `Slab`'s `Index`: the value at an occupied key (it panics on a vacant one).
#[verifier::external_body]
pub(crate) fn slab_get(s: &Slab<SlotData>, key: usize) -> (r: SlotData)
    requires
        slab_entries(*s).contains_key(key),
    ensures
        r == slab_entries(*s)[key],
{
    s[key]
}

/// Relies on `Slab`'s `IndexMut`: replaces the value at an occupied key (it panics on a
/// vacant one).
#[verifier::external_body]
pub(crate) fn slab_set(s: &mut Slab<SlotData>, key: usize, val: SlotData)
    requires
        slab_entries(*old(s)).contains_key(key),
    ensures
        slab_entries(*final(s)) == slab_entries(*old(s)).insert(key, val),
{
    s[key] = val;
}

/// Relies on `Slab::capacity`: what it can hold without allocating; nothing is promised
/// of the number.
#[verifier::external_body]
pub(crate) fn slab_capacity(s: &Slab<SlotData>) -> (r: usize) {
    s.capacity()
}

/// Relies on `Slab::clear`: no entries are left.
#[verifier::external_body]
pub(crate) fn slab_clear(s: &mut Slab<SlotData>)
    ensures
        slab_entries(*final(s)).dom() == Set::<usize>::empty(),
{
    s.clear()
}

/// Relies on `Slab::reserve`: room is made and the entries stay as they are (it panics
/// when the capacity overflows, which the bound leaves out).
#[verifier::external_body]
pub(crate) fn slab_reserve(s: &mut Slab<SlotData>, additional: usize)
    requires
        additional <= 1_073_741_823,
    ensures
        slab_entries(*final(s)) == slab_entries(*old(s)),
{
    s.reserve(additional)
}

/// Relies on `Slab::shrink_to_fit`: only vacant entries at the end go, the keys of the
/// occupied ones stay.
#[verifier::external_body]
pub(crate) fn slab_shrink_to_fit(s: &mut Slab<SlotData>)
    ensures
        slab_entries(*final(s)) == slab_entries(*old(s)),
{
    s.shrink_to_fit()
}

/// The moves `(from, to)` of a compaction, in order, took the slab's entries from `before`
/// to `after`: each moved an occupied entry to a key that was vacant, no key is moved from
/// or to twice, and every other entry stays where it was.
pub open spec fn compacted(
    before: Map<usize, SlotData>,
    moves: Seq<(usize, usize)>,
    after: Map<usize, SlotData>,
) -> bool {
    &&& forall|i: int| 0 <= i < moves.len() ==> before.contains_key(#[trigger] moves[i].0) && !before.contains_key(moves[i].1)
    &&& forall|i: int, j: int| 0 <= i < moves.len() && 0 <= j < moves.len() && i != j ==> (#[trigger] moves[i]).0 != (#[trigger] moves[j]).0 && moves[i].1 != moves[j].1
    &&& forall|i: int| 0 <= i < moves.len() ==> after.contains_key(#[trigger] moves[i].1) && after[moves[i].1] == before[moves[i].0]
    &&& forall|i: int| 0 <= i < moves.len() ==> !after.contains_key(#[trigger] moves[i].0)
    &&& forall|k: usize| #[trigger] after.contains_key(k) && !(exists|i: int| 0 <= i < moves.len() && moves[i].1 == k) ==> before.contains_key(k) && after[k] == before[k]
    &&& forall|k: usize| #[trigger] before.contains_key(k) && !(exists|i: int| 0 <= i < moves.len() && moves[i].0 == k) ==> after.contains_key(k) && after[k] == before[k]
}

/// Notes a move of a compaction and lets it go ahead.
pub(crate) fn record_move(moves: &mut Vec<(usize, usize)>, from: usize, to: usize) -> (r: bool)
    ensures
        final(moves)@ == old(moves)@.push((from, to)),
        r,
{
    moves.push((from, to));
    true
}

/// Relies on `Slab::compact`: entries are moved from the end into vacant keys until none
/// is vacant below the last occupied one, each move reported before it is made; every
/// move is let go ahead, so the occupied keys end up below their number.
#[verifier::external_body]
pub(crate) fn slab_compact(s: &mut Slab<SlotData>) -> (r: Vec<(usize, usize)>)
    ensures
        compacted(slab_entries(*old(s)), r@, slab_entries(*final(s))),
        forall|i: usize| #[trigger] slab_entries(*final(s)).contains_key(i) ==> i < slab_entries(*final(s)).dom().len(),
{
    let mut moves = Vec::new();
    s.compact(|_, from, to| record_move(&mut moves, from, to));
    moves
}

} // verus!
