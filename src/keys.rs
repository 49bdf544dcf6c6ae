use slotmap::{DefaultKey, Key, KeyData, SlotMap};
use vstd::prelude::*;

verus! {

/// A slot map of `slotmap` that hands out generational keys and stores
/// nothing beside them.
#[verifier::external_body]
pub struct Slots {
    inner: SlotMap<DefaultKey, ()>,
}

/// The keys that a slot map holds, each written as its 64-bit handle.
pub uninterp spec fn live_handles(m: Slots) -> Set<u64>;

/// Relies on `SlotMap::new`: a new slot map holds no key.
#[verifier::external_body]
fn new_slot_map() -> (r: Slots)
    ensures
        live_handles(r) == Set::<u64>::empty(),
{
    Slots { inner: SlotMap::new() }
}

/// Relies on `SlotMap::insert` and `KeyData::as_ffi`: the returned key is
/// one that the map did not hold, and it holds it afterwards.
#[verifier::external_body]
fn slot_map_insert(m: &mut Slots) -> (r: u64)
    requires
        live_handles(*old(m)).len() < 0xffff_fffe,
    ensures
        !live_handles(*old(m)).contains(r),
        live_handles(*final(m)) == live_handles(*old(m)).insert(r),
{
    m.inner.insert(()).data().as_ffi()
}

/// Relies on `KeyData::from_ffi` (which gives back the key of a handle made
/// by `as_ffi`) and `SlotMap::remove`: the key is no longer held.
#[verifier::external_body]
fn slot_map_remove(m: &mut Slots, h: u64)
    requires
        live_handles(*old(m)).contains(h),
    ensures
        live_handles(*final(m)) == live_handles(*old(m)).remove(h),
{
    m.inner.remove(DefaultKey::from(KeyData::from_ffi(h)));
}

/// The largest number of keys that an allocator hands out at once.
pub const MAX_LIVE_KEYS: usize = 0xffff_0000;

/// Generational key allocator: every key it hands out is distinct from every
/// key that is still live, and a removed key no longer counts as live.
pub struct KeyAllocator {
    slots: Slots,
    count: usize,
}

impl KeyAllocator {
    pub closed spec fn live(&self) -> Set<u64> {
        live_handles(self.slots)
    }

    pub closed spec fn wf(&self) -> bool {
        &&& self.live().finite()
        &&& self.live().len() == self.count as nat
        &&& self.count <= MAX_LIVE_KEYS
    }

    pub fn new() -> (r: Self)
        ensures
            r.wf(),
            r.live() == Set::<u64>::empty(),
    {
        KeyAllocator { slots: new_slot_map(), count: 0 }
    }

    pub fn len(&self) -> (r: usize)
        requires
            self.wf(),
        ensures
            r as nat == self.live().len(),
    {
        self.count
    }

    pub fn is_full(&self) -> (r: bool)
        requires
            self.wf(),
        ensures
            r == (self.live().len() >= MAX_LIVE_KEYS as nat),
    {
        self.count >= MAX_LIVE_KEYS
    }

    /// Hands out a key that is not live, and makes it live.
    pub fn allocate(&mut self) -> (r: u64)
        requires
            old(self).wf(),
            old(self).live().len() < MAX_LIVE_KEYS as nat,
        ensures
            final(self).wf(),
            !old(self).live().contains(r),
            final(self).live() == old(self).live().insert(r),
            final(self).live().len() == old(self).live().len() + 1,
    {
        let r = slot_map_insert(&mut self.slots);
        self.count = self.count + 1;
        r
    }

    /// Releases a live key.
    pub fn release(&mut self, h: u64)
        requires
            old(self).wf(),
            old(self).live().contains(h),
        ensures
            final(self).wf(),
            final(self).live() == old(self).live().remove(h),
            final(self).live().len() < MAX_LIVE_KEYS as nat,
            final(self).live().len() + 1 == old(self).live().len(),
    {
        slot_map_remove(&mut self.slots, h);
        self.count = self.count - 1;
    }
}

} // verus!
