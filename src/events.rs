use crate::movement::{Coords, Direction};
use vstd::prelude::*;

verus! {

/// A live entity's handle, as the key allocator gave it out.
pub type EntityKey = u64;

/// What may happen in the world. The four batch events fan out into one
/// event per entity; every other event is about one entity or one cell.
#[derive(Clone, Copy, Debug, PartialEq, Eq)]
pub enum WorldEvent {
    VillagerMoved(EntityKey, Direction),
    VillagerAte(EntityKey),
    VillagerHungered(EntityKey),
    FarmGrew(EntityKey),
    FarmHarvested(EntityKey),
    VillagerDied(EntityKey),
    FarmAdded(Coords),
    VillagerHarvested(EntityKey),
    GravesCleared,
    FarmsCultivated,
    VillagersFarmed,
    VillagersMoved,
}

pub open spec fn is_batch(e: WorldEvent) -> bool {
    match e {
        WorldEvent::GravesCleared => true,
        WorldEvent::FarmsCultivated => true,
        WorldEvent::VillagersFarmed => true,
        WorldEvent::VillagersMoved => true,
        _ => false,
    }
}

/// How many more events a single event may still lead to, counted so that
/// each rule gives rise only to events of smaller weight.
pub open spec fn weight(e: WorldEvent) -> nat {
    match e {
        WorldEvent::VillagerHarvested(_) => 3,
        WorldEvent::VillagerHungered(_) => 2,
        WorldEvent::FarmGrew(_) => 2,
        _ => if is_batch(e) {
            0
        } else {
            1
        },
    }
}

/// The number of batch events in a sequence.
pub open spec fn batches(s: Seq<WorldEvent>) -> nat
    decreases s.len(),
{
    if s.len() == 0 {
        0
    } else {
        batches(s.drop_last()) + if is_batch(s.last()) {
            1nat
        } else {
            0nat
        }
    }
}

/// The total weight of a sequence.
pub open spec fn load(s: Seq<WorldEvent>) -> nat
    decreases s.len(),
{
    if s.len() == 0 {
        0
    } else {
        load(s.drop_last()) + weight(s.last())
    }
}

/// What each rule may give rise to: batch events only fine-grained events,
/// and a fine-grained event only fine-grained events of less weight in all.
pub open spec fn expands_to(e: WorldEvent, out: Seq<WorldEvent>) -> bool {
    &&& batches(out) == 0
    &&& !is_batch(e) ==> load(out) < weight(e)
}

pub proof fn lemma_measure_concat(a: Seq<WorldEvent>, b: Seq<WorldEvent>)
    ensures
        batches(a + b) == batches(a) + batches(b),
        load(a + b) == load(a) + load(b),
    decreases b.len(),
{
    if b.len() > 0 {
        lemma_measure_concat(a, b.drop_last());
        assert((a + b).drop_last() =~= a + b.drop_last());
    } else {
        assert(a + b =~= a);
    }
}

pub proof fn lemma_measure_push(s: Seq<WorldEvent>, e: WorldEvent)
    ensures
        batches(s.push(e)) == batches(s) + if is_batch(e) {
            1nat
        } else {
            0nat
        },
        load(s.push(e)) == load(s) + weight(e),
{
    assert(s.push(e).drop_last() =~= s);
}

pub proof fn lemma_measure_short(s: Seq<WorldEvent>)
    ensures
        s.len() == 0 ==> batches(s) == 0 && load(s) == 0,
        s.len() == 1 ==> batches(s) == (if is_batch(s[0]) {
            1nat
        } else {
            0nat
        }) && load(s) == weight(s[0]),
        s.len() == 2 ==> load(s) == weight(s[0]) + weight(s[1]) && (!is_batch(s[0]) && !is_batch(
            s[1],
        ) ==> batches(s) == 0),
{
    if s.len() == 1 {
        assert(s =~= Seq::<WorldEvent>::empty().push(s[0]));
        lemma_measure_push(Seq::empty(), s[0]);
    } else if s.len() == 2 {
        assert(s =~= Seq::<WorldEvent>::empty().push(s[0]).push(s[1]));
        lemma_measure_push(Seq::empty(), s[0]);
        lemma_measure_push(Seq::empty().push(s[0]), s[1]);
    }
}

/// A sequence without batch events counts none.
pub proof fn lemma_no_batches(s: Seq<WorldEvent>)
    requires
        forall|j: int| 0 <= j < s.len() ==> !is_batch(#[trigger] s[j]),
    ensures
        batches(s) == 0,
    decreases s.len(),
{
    if s.len() > 0 {
        lemma_no_batches(s.drop_last());
    }
}

} // verus!
