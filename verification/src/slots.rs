//! The storage layer: slot maps of the `slotmap` crate, holding positions.
//!
//! An arena keeps its payloads in vectors and asks a `slotmap::SlotMap` where
//! each handle's payload lies; per-handle side tables ask a
//! `slotmap::SecondaryMap` the same. Nothing in this file is proved: each
//! function states what the `slotmap` source shows of the call it makes.
//!
//! Keys cross this layer as 64-bit words. A key goes out through `Key::data`
//! and `KeyData::as_ffi`, which puts the slot index in the low half of the
//! word and the generation in the high half. A word comes in through
//! `KeyData::from_ffi`, which reads the two halves back and sets the lowest
//! bit of the generation; for a word with an odd generation, which is what
//! `is_handle_bits` asks, that is the key the word came from.
use slotmap::{DefaultKey, Key, KeyData, SecondaryMap, SlotMap};
use vstd::prelude::*;

use crate::handle::{
    generation_of, index_of, is_handle_bits, LAST_GENERATION, NULL_BITS, NULL_INDEX,
};

verus! {

/// The most entries a slot index holds: `SlotMap::insert` panics beyond it.
pub const SLOT_LIMIT: usize = 0xFFFF_FFFE;

/// A `slotmap::SlotMap` from handles to positions.
#[verifier::external_body]
pub struct SlotIndex {
    map: SlotMap<DefaultKey, usize>,
}

/// The position stored under each live handle word of a slot index.
pub uninterp spec fn slot_positions(m: SlotIndex) -> Map<u64, usize>;

/// The handle words that a slot index has issued and seen removed, and will
/// not issue again: for each slot, the odd generations below its current one.
pub uninterp spec fn slot_retired(m: SlotIndex) -> Set<u64>;

/// `Key::null` followed by `KeyData::as_ffi`: the null key has the highest
/// slot index and generation one.
#[verifier::external_body]
pub(crate) fn null_bits() -> (bits: u64)
    ensures
        bits == NULL_BITS,
{
    DefaultKey::null().data().as_ffi()
}

/// `SlotMap::with_key`: the new map holds no handle and has retired none.
#[verifier::external_body]
pub(crate) fn slot_index_new() -> (m: SlotIndex)
    ensures
        (slot_positions(m) == Map::<u64, usize>::empty()),
        slot_retired(m) == Set::<u64>::empty(),
{
    SlotIndex { map: SlotMap::with_key() }
}

/// `SlotMap::insert`: stores `pos` under a handle that is neither live nor
/// retired, whose slot no live handle uses, and which is not null. The map
/// must hold fewer than `SLOT_LIMIT` entries, beyond which the call panics.
#[verifier::external_body]
pub(crate) fn slot_index_insert(m: &mut SlotIndex, pos: usize) -> (bits: u64)
    requires
        slot_positions(*old(m)).dom().finite(),
        slot_positions(*old(m)).len() < SLOT_LIMIT,
    ensures
        is_handle_bits(bits),
        index_of(bits) != NULL_INDEX,
        !slot_positions(*old(m)).contains_key(bits),
        !slot_retired(*old(m)).contains(bits),
        forall|k: u64| #[trigger]
            slot_positions(*old(m)).contains_key(k) ==> index_of(k) != index_of(bits),
        slot_positions(*final(m)) == slot_positions(*old(m)).insert(bits, pos),
        slot_retired(*final(m)) == slot_retired(*old(m)),
{
    m.map.insert(pos).data().as_ffi()
}

/// `SlotMap::remove`: takes a live handle out and returns its position; any
/// other handle changes nothing. The handle removed is retired, unless its
/// slot was at its last generation, after which the slot's count starts over
/// and nothing older of that slot stays retired.
#[verifier::external_body]
pub(crate) fn slot_index_remove(m: &mut SlotIndex, bits: u64) -> (r: Option<usize>)
    requires
        is_handle_bits(bits),
    ensures
        r == (if slot_positions(*old(m)).contains_key(bits) {
            Some(slot_positions(*old(m))[bits])
        } else {
            None
        }),
        slot_positions(*final(m)) == slot_positions(*old(m)).remove(bits),
        r.is_none() ==> slot_retired(*final(m)) == slot_retired(*old(m)),
        r.is_some() ==> slot_retired(*final(m)).subset_of(slot_retired(*old(m)).insert(bits)),
        r.is_some() && generation_of(bits) < LAST_GENERATION ==> slot_retired(*final(m))
            == slot_retired(*old(m)).insert(bits),
{
    m.map.remove(DefaultKey::from(KeyData::from_ffi(bits)))
}

/// `SlotMap::get`: the position stored under a live handle.
#[verifier::external_body]
pub(crate) fn slot_index_get(m: &SlotIndex, bits: u64) -> (r: Option<usize>)
    requires
        is_handle_bits(bits),
    ensures
        r == (if slot_positions(*m).contains_key(bits) {
            Some(slot_positions(*m)[bits])
        } else {
            None
        }),
{
    m.map.get(DefaultKey::from(KeyData::from_ffi(bits))).copied()
}

/// `SlotMap::get_mut`: the place of a live handle's position. What the
/// caller leaves there is what the map then holds; nothing else changes.
#[verifier::external_body]
pub(crate) fn slot_index_get_mut(m: &mut SlotIndex, bits: u64) -> (r: Option<&mut usize>)
    requires
        is_handle_bits(bits),
    ensures
        r.is_some() == slot_positions(*old(m)).contains_key(bits),
        slot_retired(*final(m)) == slot_retired(*old(m)),
        match r {
            Some(p) => *p == slot_positions(*old(m))[bits] && slot_positions(*final(m))
                == slot_positions(*old(m)).insert(bits, *final(p)),
            None => slot_positions(*final(m)) == slot_positions(*old(m)),
        },
{
    m.map.get_mut(DefaultKey::from(KeyData::from_ffi(bits)))
}

/// A `slotmap::SecondaryMap` from handles to positions.
#[verifier::external_body]
pub struct SideIndex {
    map: SecondaryMap<DefaultKey, usize>,
}

/// The position stored under each handle word of a side index.
pub uninterp spec fn side_positions(m: SideIndex) -> Map<u64, usize>;

/// `SecondaryMap::new`: the new map holds no handle.
#[verifier::external_body]
pub(crate) fn side_index_new() -> (m: SideIndex)
    ensures
        (side_positions(m) == Map::<u64, usize>::empty()),
{
    SideIndex { map: SecondaryMap::new() }
}

/// `SecondaryMap::insert`: stores `pos` under the handle and returns what
/// was stored under it before. This holds of a handle that is not null and
/// whose slot no other handle in the map uses; the call ignores a null
/// handle, and between two handles of one slot it keeps the younger.
#[verifier::external_body]
pub(crate) fn side_index_insert(m: &mut SideIndex, bits: u64, pos: usize) -> (r: Option<usize>)
    requires
        is_handle_bits(bits),
        index_of(bits) != NULL_INDEX,
        forall|k: u64| #[trigger]
            side_positions(*old(m)).contains_key(k) && k != bits ==> index_of(k) != index_of(bits),
    ensures
        r == (if side_positions(*old(m)).contains_key(bits) {
            Some(side_positions(*old(m))[bits])
        } else {
            None
        }),
        side_positions(*final(m)) == side_positions(*old(m)).insert(bits, pos),
{
    m.map.insert(DefaultKey::from(KeyData::from_ffi(bits)), pos)
}

/// `SecondaryMap::get`: the position stored under a handle.
#[verifier::external_body]
pub(crate) fn side_index_get(m: &SideIndex, bits: u64) -> (r: Option<usize>)
    requires
        is_handle_bits(bits),
    ensures
        r == (if side_positions(*m).contains_key(bits) {
            Some(side_positions(*m)[bits])
        } else {
            None
        }),
{
    m.map.get(DefaultKey::from(KeyData::from_ffi(bits))).copied()
}

} // verus!
