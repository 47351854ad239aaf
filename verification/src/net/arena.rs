//! The slot maps that hold the net, as verified code sees them.
//!
//! Each arena wraps one `slotmap::SlotMap`. Keys cross this boundary in
//! their 64-bit form (`KeyData::as_ffi`), which `KeyData::from_ffi` turns
//! back into the key it came from. Nothing in this file is proved: each
//! contract restates what the slot map's source shows.

use slotmap::{DefaultKey, Key, KeyData, SlotMap};
use vstd::prelude::*;

use crate::net::types::PartialType;
use crate::net::{Edge, EdgeRef};

verus! {

/// The most slots that a slot map makes before `insert` panics.
pub const SLOT_LIMIT: u64 = 0xffff_fffe;

/// The slot map of partial types.
#[verifier::external_body]
pub struct TypeArena {
    slots: SlotMap<DefaultKey, PartialType>,
}

/// The slot map of edges.
#[verifier::external_body]
pub struct EdgeArena {
    slots: SlotMap<DefaultKey, Edge>,
}

/// The slot map of edge-refs.
#[verifier::external_body]
pub struct RefArena {
    slots: SlotMap<DefaultKey, EdgeRef>,
}

/// What the slot map of partial types holds, by the 64-bit form of each key.
pub uninterp spec fn type_slots(m: TypeArena) -> Map<u64, PartialType>;

/// How many slots the slot map of partial types has made so far.
pub uninterp spec fn type_span(m: TypeArena) -> nat;

/// The keys of the slot map of partial types in the order in which the map
/// is walked, which is that of its slots, and so that in which the keys
/// were made.
pub uninterp spec fn type_walk(m: TypeArena) -> Seq<u64>;

/// What the slot map of edges holds, by the 64-bit form of each key.
pub uninterp spec fn edge_slots(m: EdgeArena) -> Map<u64, Edge>;

/// How many slots the slot map of edges has made so far.
pub uninterp spec fn edge_span(m: EdgeArena) -> nat;

/// The keys of the slot map of edges in the order in which the map is
/// walked, which is that of its slots.
pub uninterp spec fn edge_walk(m: EdgeArena) -> Seq<u64>;

/// What the slot map of edge-refs holds, by the 64-bit form of each key.
pub uninterp spec fn ref_slots(m: RefArena) -> Map<u64, EdgeRef>;

/// How many slots the slot map of edge-refs has made so far.
pub uninterp spec fn ref_span(m: RefArena) -> nat;

impl TypeArena {
    /// `SlotMap::new`: an empty map that has made no slot, so that a walk
    /// of it finds no key.
    #[verifier::external_body]
    pub(crate) fn new() -> (m: TypeArena)
        ensures
            type_slots(m).dom() == Set::<u64>::empty(),
            type_span(m) == 0,
            type_walk(m).len() == 0,
    {
        TypeArena { slots: SlotMap::new() }
    }

    /// `SlotMap::insert`: stores the value under a key that the map did not
    /// hold. Nothing is ever taken out of this arena, so no slot of it is
    /// vacant: the value gets a new slot behind all others, and a walk
    /// finds its key last. It panics only when `u32::MAX - 1` slots were
    /// made.
    #[verifier::external_body]
    pub(crate) fn insert(&mut self, v: PartialType) -> (k: u64)
        requires
            type_span(*old(self)) < SLOT_LIMIT,
        ensures
            !type_slots(*old(self)).dom().contains(k),
            type_slots(*final(self)) == type_slots(*old(self)).insert(k, v),
            type_span(*old(self)) <= type_span(*final(self)) <= type_span(*old(self)) + 1,
            type_walk(*final(self)) == type_walk(*old(self)).push(k),
    {
        self.slots.insert(v).data().as_ffi()
    }

    /// `SlotMap::get`: the value stored under a key that the map holds.
    #[verifier::external_body]
    pub(crate) fn get(&self, k: u64) -> (v: PartialType)
        requires
            type_slots(*self).dom().contains(k),
        ensures
            v == type_slots(*self)[k],
    {
        *self.slots.get(DefaultKey::from(KeyData::from_ffi(k))).unwrap()
    }

    /// `SlotMap::get_mut`: the place of the value stored under a key that
    /// the map holds. No slot is made, vacated or moved.
    #[verifier::external_body]
    pub(crate) fn get_mut(&mut self, k: u64) -> (v: &mut PartialType)
        requires
            type_slots(*old(self)).dom().contains(k),
        ensures
            *v == type_slots(*old(self))[k],
            type_slots(*final(self)) == type_slots(*old(self)).insert(k, *final(v)),
            type_span(*final(self)) == type_span(*old(self)),
            type_walk(*final(self)) == type_walk(*old(self)),
    {
        self.slots.get_mut(DefaultKey::from(KeyData::from_ffi(k))).unwrap()
    }

    /// `SlotMap::keys`: every key that the map holds, once, in the order of
    /// the slots.
    #[verifier::external_body]
    pub(crate) fn keys(&self) -> (ks: Vec<u64>)
        ensures
            ks@ == type_walk(*self),
            ks@.no_duplicates(),
            forall|k: u64| ks@.contains(k) <==> type_slots(*self).dom().contains(k),
    {
        self.slots.keys().map(|k| k.data().as_ffi()).collect()
    }
}

impl EdgeArena {
    /// `SlotMap::new`: an empty map that has made no slot.
    #[verifier::external_body]
    pub(crate) fn new() -> (m: EdgeArena)
        ensures
            edge_slots(m).dom() == Set::<u64>::empty(),
            edge_span(m) == 0,
    {
        EdgeArena { slots: SlotMap::new() }
    }

    /// `SlotMap::insert`: stores the value under a key that the map did not
    /// hold, in a vacant slot or in a new one. It panics only when it needs
    /// a new slot and `u32::MAX - 1` were made.
    #[verifier::external_body]
    pub(crate) fn insert(&mut self, v: Edge) -> (k: u64)
        requires
            edge_span(*old(self)) < SLOT_LIMIT,
        ensures
            !edge_slots(*old(self)).dom().contains(k),
            edge_slots(*final(self)) == edge_slots(*old(self)).insert(k, v),
            edge_span(*old(self)) <= edge_span(*final(self)) <= edge_span(*old(self)) + 1,
    {
        self.slots.insert(v).data().as_ffi()
    }

    /// `SlotMap::remove`: takes out the value stored under a key that the
    /// map holds; its slot becomes vacant.
    #[verifier::external_body]
    pub(crate) fn remove(&mut self, k: u64) -> (v: Edge)
        requires
            edge_slots(*old(self)).dom().contains(k),
        ensures
            v == edge_slots(*old(self))[k],
            edge_slots(*final(self)) == edge_slots(*old(self)).remove(k),
            edge_span(*final(self)) == edge_span(*old(self)),
    {
        self.slots.remove(DefaultKey::from(KeyData::from_ffi(k))).unwrap()
    }

    /// `SlotMap::get`: the value stored under a key that the map holds.
    #[verifier::external_body]
    pub(crate) fn get(&self, k: u64) -> (v: &Edge)
        requires
            edge_slots(*self).dom().contains(k),
        ensures
            *v == edge_slots(*self)[k],
    {
        self.slots.get(DefaultKey::from(KeyData::from_ffi(k))).unwrap()
    }

    /// `SlotMap::get_mut`: the place of the value stored under a key that
    /// the map holds. No slot is made, vacated or moved.
    #[verifier::external_body]
    pub(crate) fn get_mut(&mut self, k: u64) -> (v: &mut Edge)
        requires
            edge_slots(*old(self)).dom().contains(k),
        ensures
            *v == edge_slots(*old(self))[k],
            edge_slots(*final(self)) == edge_slots(*old(self)).insert(k, *final(v)),
            edge_span(*final(self)) == edge_span(*old(self)),
    {
        self.slots.get_mut(DefaultKey::from(KeyData::from_ffi(k))).unwrap()
    }

    /// `SlotMap::keys`: every key that the map holds, once, in the order of
    /// the slots.
    #[verifier::external_body]
    pub(crate) fn keys(&self) -> (ks: Vec<u64>)
        ensures
            ks@ == edge_walk(*self),
            ks@.no_duplicates(),
            forall|k: u64| ks@.contains(k) <==> edge_slots(*self).dom().contains(k),
    {
        self.slots.keys().map(|k| k.data().as_ffi()).collect()
    }

    /// `SlotMap::len`: the number of values that the map holds.
    #[verifier::external_body]
    pub(crate) fn len(&self) -> (n: usize)
        requires
            edge_slots(*self).dom().finite(),
        ensures
            n == edge_slots(*self).dom().len(),
    {
        self.slots.len()
    }
}

impl RefArena {
    /// `SlotMap::new`: an empty map that has made no slot.
    #[verifier::external_body]
    pub(crate) fn new() -> (m: RefArena)
        ensures
            ref_slots(m).dom() == Set::<u64>::empty(),
            ref_span(m) == 0,
    {
        RefArena { slots: SlotMap::new() }
    }

    /// `SlotMap::insert`: stores the value under a key that the map did not
    /// hold, in a vacant slot or in a new one. It panics only when it needs
    /// a new slot and `u32::MAX - 1` were made.
    #[verifier::external_body]
    pub(crate) fn insert(&mut self, v: EdgeRef) -> (k: u64)
        requires
            ref_span(*old(self)) < SLOT_LIMIT,
        ensures
            !ref_slots(*old(self)).dom().contains(k),
            ref_slots(*final(self)) == ref_slots(*old(self)).insert(k, v),
            ref_span(*old(self)) <= ref_span(*final(self)) <= ref_span(*old(self)) + 1,
    {
        self.slots.insert(v).data().as_ffi()
    }

    /// `SlotMap::remove`: takes out the value stored under a key that the
    /// map holds; its slot becomes vacant.
    #[verifier::external_body]
    pub(crate) fn remove(&mut self, k: u64) -> (v: EdgeRef)
        requires
            ref_slots(*old(self)).dom().contains(k),
        ensures
            v == ref_slots(*old(self))[k],
            ref_slots(*final(self)) == ref_slots(*old(self)).remove(k),
            ref_span(*final(self)) == ref_span(*old(self)),
    {
        self.slots.remove(DefaultKey::from(KeyData::from_ffi(k))).unwrap()
    }

    /// `SlotMap::get`: the value stored under a key that the map holds.
    #[verifier::external_body]
    pub(crate) fn get(&self, k: u64) -> (v: EdgeRef)
        requires
            ref_slots(*self).dom().contains(k),
        ensures
            v == ref_slots(*self)[k],
    {
        *self.slots.get(DefaultKey::from(KeyData::from_ffi(k))).unwrap()
    }

    /// `SlotMap::get_mut`: the place of the value stored under a key that
    /// the map holds. No slot is made, vacated or moved.
    #[verifier::external_body]
    pub(crate) fn get_mut(&mut self, k: u64) -> (v: &mut EdgeRef)
        requires
            ref_slots(*old(self)).dom().contains(k),
        ensures
            *v == ref_slots(*old(self))[k],
            ref_slots(*final(self)) == ref_slots(*old(self)).insert(k, *final(v)),
            ref_span(*final(self)) == ref_span(*old(self)),
    {
        self.slots.get_mut(DefaultKey::from(KeyData::from_ffi(k))).unwrap()
    }
}

} // verus!
