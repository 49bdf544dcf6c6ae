use crate::events::{
    batches, expands_to, lemma_measure_concat, lemma_measure_push, lemma_measure_short,
    lemma_no_batches, load, EntityKey, WorldEvent,
};
use crate::keys::KeyAllocator;
use crate::movement::{
    can_move_in_dir, coords_after_move, direction_from_index, direction_of, interior, may_step,
    stepped, Coords, Direction,
};
use crate::random::{RandomSource, ThreadRandom};
use vstd::prelude::*;

verus! {

/// A stable identifier, handed out in order of creation.
pub type EntityId = usize;

pub type Ticks = usize;

/// What an entity is, with the attributes of its kind.
#[derive(Clone, Copy, Debug, PartialEq, Eq)]
pub enum Role {
    Villager { last_ate: Ticks, satiation: u8 },
    Farm { last_grew: Ticks },
    DeathMarker,
}

/// One live entity: its key, its identifier, its cell and its kind.
#[derive(Clone, Copy, Debug, PartialEq, Eq)]
pub struct Entity {
    pub key: EntityKey,
    pub id: EntityId,
    pub coords: Coords,
    pub role: Role,
}

/// A villager as callers see it.
#[derive(Clone, Copy, Debug, PartialEq, Eq)]
pub struct Villager {
    pub id: EntityId,
    pub key: EntityKey,
    pub last_ate: Ticks,
}

/// A farm as callers see it.
#[derive(Clone, Copy, Debug, PartialEq, Eq)]
pub struct Farm {
    pub id: EntityId,
    pub key: EntityKey,
    pub last_grew: Ticks,
}

/// The place where a villager died, as callers see it.
#[derive(Clone, Copy, Debug, PartialEq, Eq)]
pub struct DeathMarker {
    pub id: EntityId,
    pub key: EntityKey,
}

pub open spec fn keys_distinct(s: Seq<Entity>) -> bool {
    forall|i: int, j: int|
        0 <= i < s.len() && 0 <= j < s.len() && i != j ==> #[trigger] s[i].key != #[trigger] s[j].key
}

/// No attribute of an entity lies in the future.
pub open spec fn times_past(s: Seq<Entity>, now: nat) -> bool {
    forall|i: int|
        0 <= i < s.len() ==> match #[trigger] s[i].role {
            Role::Villager { last_ate, .. } => last_ate <= now,
            Role::Farm { last_grew } => last_grew <= now,
            Role::DeathMarker => true,
        }
}

pub open spec fn is_villager_at(s: Seq<Entity>, i: int, k: EntityKey) -> bool {
    0 <= i < s.len() && s[i].key == k && s[i].role is Villager
}

pub open spec fn is_farm_at(s: Seq<Entity>, i: int, k: EntityKey) -> bool {
    0 <= i < s.len() && s[i].key == k && s[i].role is Farm
}

pub open spec fn has_villager(s: Seq<Entity>, k: EntityKey) -> bool {
    exists|i: int| is_villager_at(s, i, k)
}

pub open spec fn has_farm(s: Seq<Entity>, k: EntityKey) -> bool {
    exists|i: int| is_farm_at(s, i, k)
}

/// Whether a farm stands on cell `c`.
pub open spec fn farm_on(s: Seq<Entity>, c: Coords) -> bool {
    exists|i: int| 0 <= i < s.len() && (#[trigger] s[i]).role is Farm && s[i].coords == c
}

/// No two farms share a cell.
pub open spec fn farms_apart(s: Seq<Entity>) -> bool {
    forall|i: int, j: int|
        0 <= i < s.len() && 0 <= j < s.len() && i != j && s[i].role is Farm && s[j].role is Farm
            ==> #[trigger] s[i].coords != #[trigger] s[j].coords
}

/// Every villager stands off the border.
pub open spec fn villagers_inside(s: Seq<Entity>) -> bool {
    forall|i: int| 0 <= i < s.len() && (#[trigger] s[i]).role is Villager ==> interior(s[i].coords)
}

/// The keys of the villagers, in the order of the entities.
pub open spec fn villager_keys(s: Seq<Entity>) -> Seq<EntityKey>
    decreases s.len(),
{
    if s.len() == 0 {
        Seq::empty()
    } else if s.last().role is Villager {
        villager_keys(s.drop_last()).push(s.last().key)
    } else {
        villager_keys(s.drop_last())
    }
}

/// The keys of the farms, in the order of the entities.
pub open spec fn farm_keys(s: Seq<Entity>) -> Seq<EntityKey>
    decreases s.len(),
{
    if s.len() == 0 {
        Seq::empty()
    } else if s.last().role is Farm {
        farm_keys(s.drop_last()).push(s.last().key)
    } else {
        farm_keys(s.drop_last())
    }
}

/// The entities that are not death markers, in order.
pub open spec fn without_markers(s: Seq<Entity>) -> Seq<Entity>
    decreases s.len(),
{
    if s.len() == 0 {
        Seq::empty()
    } else if s.last().role is DeathMarker {
        without_markers(s.drop_last())
    } else {
        without_markers(s.drop_last()).push(s.last())
    }
}

pub open spec fn count_markers(s: Seq<Entity>) -> nat
    decreases s.len(),
{
    if s.len() == 0 {
        0
    } else {
        count_markers(s.drop_last()) + if s.last().role is DeathMarker {
            1nat
        } else {
            0nat
        }
    }
}

/// Farms grow again only this many ticks after they last grew.
pub const GROWTH_COOLDOWN: usize = 20;

/// A cascade runs every this many ticks.
pub const TICK_INTERVAL: usize = 20;

/// A villager wants food while its satiation is below this ...
pub const HUNGRY_BELOW: u8 = 5;

/// ... and it has eaten less than this many ticks ago.
pub const FED_WITHIN: usize = 40;

pub open spec fn moved_to(e: Entity, c: Coords) -> Entity {
    Entity { key: e.key, id: e.id, coords: c, role: e.role }
}

/// A villager after eating at `now`: one more satiation, up to the largest value.
pub open spec fn fed(e: Entity, now: nat) -> Entity {
    let s = e.role->satiation;
    Entity {
        key: e.key,
        id: e.id,
        coords: e.coords,
        role: Role::Villager {
            last_ate: now as usize,
            satiation: if s < 255 {
                (s + 1) as u8
            } else {
                s
            },
        },
    }
}

/// A villager after going hungry at `now`: one less satiation.
pub open spec fn hungered(e: Entity, now: nat) -> Entity {
    Entity {
        key: e.key,
        id: e.id,
        coords: e.coords,
        role: Role::Villager { last_ate: now as usize, satiation: (e.role->satiation - 1) as u8 },
    }
}

pub open spec fn regrown(e: Entity, now: nat) -> Entity {
    Entity { key: e.key, id: e.id, coords: e.coords, role: Role::Farm { last_grew: now as usize } }
}

/// The neighbours of `c` in the first `n` directions (up, down, left, right)
/// that lie off the border and hold no farm, in that order.
pub open spec fn free_cells(s: Seq<Entity>, c: Coords, n: nat) -> Seq<Coords>
    decreases n,
{
    if n == 0 {
        Seq::empty()
    } else {
        let d = direction_of((n - 1) as usize);
        let prev = free_cells(s, c, (n - 1) as nat);
        if may_step(c, d) && !farm_on(s, stepped(c, d)) {
            prev.push(stepped(c, d))
        } else {
            prev
        }
    }
}

pub open spec fn free_neighbours(s: Seq<Entity>, c: Coords) -> Seq<Coords> {
    free_cells(s, c, 4)
}

/// A farm that grows adds a farm on one free neighbour, if there is one.
pub open spec fn grows_into(free: Seq<Coords>, out: Seq<WorldEvent>) -> bool {
    &&& free.len() == 0 ==> out.len() == 0
    &&& free.len() > 0 ==> out.len() == 1 && (out[0] matches WorldEvent::FarmAdded(c)
        && free.contains(c))
}

pub open spec fn needs_food(v: Entity, now: nat) -> bool {
    v.role->satiation < HUNGRY_BELOW && now - v.role->last_ate < FED_WITHIN
}

/// A hungry villager eats one of the farms, or goes hungry where none is left.
pub open spec fn harvests_into(s: Seq<Entity>, now: nat, k: EntityKey, v: Entity, out: Seq<
    WorldEvent,
>) -> bool {
    let farms = farm_keys(s);
    &&& needs_food(v, now) && farms.len() > 0 ==> out.len() == 2 && (out[0] matches WorldEvent::FarmHarvested(f)
        && farms.contains(f)) && out[1] == WorldEvent::VillagerAte(k)
    &&& needs_food(v, now) && farms.len() == 0 ==> out == seq![WorldEvent::VillagerHungered(k)]
    &&& !needs_food(v, now) ==> out.len() == 0
}

/// The rule of each event: from entities `s` at time `now`, with the last
/// identifier `id` and `room` for one more entity, the event leaves the
/// entities `t`, the last identifier `id2`, and gives rise to `out`.
pub open spec fn follows_rule(
    s: Seq<Entity>,
    now: nat,
    id: nat,
    room: bool,
    e: WorldEvent,
    t: Seq<Entity>,
    id2: nat,
    out: Seq<WorldEvent>,
) -> bool {
    &&& e !is FarmAdded ==> id2 == id
    &&& match e {
        WorldEvent::VillagerMoved(k, d) => {
            &&& out.len() == 0
            &&& forall|i: int|
                is_villager_at(s, i, k) ==> t == s.update(i, moved_to(s[i], stepped(s[i].coords, d)))
            &&& !has_villager(s, k) ==> t == s
        },
        WorldEvent::VillagerAte(k) => {
            &&& out.len() == 0
            &&& forall|i: int| is_villager_at(s, i, k) ==> t == s.update(i, fed(s[i], now))
            &&& !has_villager(s, k) ==> t == s
        },
        WorldEvent::VillagerHungered(k) => {
            &&& forall|i: int|
                is_villager_at(s, i, k) ==> if s[i].role->satiation > 0 {
                    t == s.update(i, hungered(s[i], now)) && out.len() == 0
                } else {
                    t == s && out == seq![WorldEvent::VillagerDied(k)]
                }
            &&& !has_villager(s, k) ==> t == s && out.len() == 0
        },
        WorldEvent::FarmGrew(k) => {
            &&& forall|i: int|
                is_farm_at(s, i, k) ==> if now - s[i].role->last_grew < GROWTH_COOLDOWN {
                    t == s && out.len() == 0
                } else {
                    t == s.update(i, regrown(s[i], now)) && grows_into(
                        free_neighbours(s, s[i].coords),
                        out,
                    )
                }
            &&& !has_farm(s, k) ==> t == s && out.len() == 0
        },
        WorldEvent::FarmHarvested(k) => {
            &&& out.len() == 0
            &&& forall|i: int| is_farm_at(s, i, k) ==> t == s.remove(i)
            &&& !has_farm(s, k) ==> t == s
        },
        WorldEvent::VillagerDied(k) => {
            &&& out.len() == 0
            &&& forall|i: int|
                is_villager_at(s, i, k) ==> t == s.update(
                    i,
                    Entity { key: t[i].key, id: s[i].id, coords: s[i].coords, role: Role::DeathMarker },
                ) && forall|j: int| 0 <= j < s.len() ==> #[trigger] s[j].key != t[i].key
            &&& !has_villager(s, k) ==> t == s
        },
        WorldEvent::FarmAdded(c) => {
            &&& out.len() == 0
            &&& room && !farm_on(s, c) ==> t == s.push(
                Entity { key: t.last().key, id: (id + 1) as usize, coords: c, role: Role::Farm { last_grew: now as usize } },
            ) && id2 == id + 1
            &&& !(room && !farm_on(s, c)) ==> t == s && id2 == id
        },
        WorldEvent::VillagerHarvested(k) => {
            &&& t == s
            &&& forall|i: int| is_villager_at(s, i, k) ==> harvests_into(s, now, k, s[i], out)
            &&& !has_villager(s, k) ==> out.len() == 0
        },
        WorldEvent::GravesCleared => out.len() == 0 && t == without_markers(s),
        WorldEvent::FarmsCultivated => t == s && out == farm_keys(s).map_values(
            |k: EntityKey| WorldEvent::FarmGrew(k),
        ),
        WorldEvent::VillagersFarmed => t == s && out == villager_keys(s).map_values(
            |k: EntityKey| WorldEvent::VillagerHarvested(k),
        ),
        WorldEvent::VillagersMoved => {
            &&& t == s
            &&& out.len() == villager_keys(s).len()
            &&& forall|j: int|
                0 <= j < out.len() ==> (#[trigger] out[j] matches WorldEvent::VillagerMoved(k, _)
                    && k == villager_keys(s)[j])
        },
    }
}

proof fn lemma_without_marker_removed(s: Seq<Entity>, i: int)
    requires
        0 <= i < s.len(),
        s[i].role is DeathMarker,
    ensures
        without_markers(s.remove(i)) == without_markers(s),
    decreases s.len(),
{
    if i == s.len() - 1 {
        assert(s.remove(i) =~= s.drop_last());
    } else {
        lemma_without_marker_removed(s.drop_last(), i);
        assert(s.remove(i).drop_last() =~= s.drop_last().remove(i));
        assert(s.remove(i).last() == s.last());
    }
}

proof fn lemma_without_markers_none(s: Seq<Entity>)
    requires
        forall|j: int| 0 <= j < s.len() ==> (#[trigger] s[j]).role !is DeathMarker,
    ensures
        without_markers(s) == s,
    decreases s.len(),
{
    if s.len() > 0 {
        lemma_without_markers_none(s.drop_last());
        assert(s.drop_last().push(s.last()) =~= s);
    }
}

/// What is left after clearing the graves comes from the entities given.
proof fn lemma_without_markers_from(s: Seq<Entity>)
    ensures
        forall|j: int|
            0 <= j < without_markers(s).len() ==> exists|m: int|
                0 <= m < s.len() && #[trigger] without_markers(s)[j] == s[m],
        forall|j: int| 0 <= j < without_markers(s).len() ==> (#[trigger] without_markers(s)[j]).role !is DeathMarker,
    decreases s.len(),
{
    if s.len() > 0 {
        let p = s.drop_last();
        lemma_without_markers_from(p);
        assert forall|j: int| 0 <= j < without_markers(s).len() implies exists|m: int|
            0 <= m < s.len() && #[trigger] without_markers(s)[j] == s[m] by {
            if j < without_markers(p).len() {
                let m = choose|m: int| 0 <= m < p.len() && without_markers(p)[j] == p[m];
                assert(s[m] == p[m]);
            } else {
                assert(without_markers(s)[j] == s[s.len() - 1]);
            }
        }
    }
}

/// Clearing the graves keeps the farms apart and the villagers inside.
proof fn lemma_without_markers_keeps(s: Seq<Entity>)
    ensures
        farms_apart(s) ==> farms_apart(without_markers(s)),
        villagers_inside(s) ==> villagers_inside(without_markers(s)),
    decreases s.len(),
{
    if s.len() > 0 {
        let p = s.drop_last();
        let x = s.last();
        lemma_without_markers_keeps(p);
        lemma_without_markers_from(p);
        let w = without_markers(p);
        let t = without_markers(s);
        if farms_apart(s) {
            assert forall|a: int, b: int|
                0 <= a < p.len() && 0 <= b < p.len() && a != b && p[a].role is Farm
                    && p[b].role is Farm implies #[trigger] p[a].coords != #[trigger] p[b].coords by {
                assert(s[a] == p[a] && s[b] == p[b]);
            }
            if x.role !is DeathMarker {
                assert forall|a: int, b: int|
                    0 <= a < t.len() && 0 <= b < t.len() && a != b && t[a].role is Farm
                        && t[b].role is Farm implies #[trigger] t[a].coords != #[trigger] t[b].coords by {
                    if a < w.len() && b < w.len() {
                        assert(t[a] == w[a] && t[b] == w[b]);
                    } else if a < w.len() {
                        let m = choose|m: int| 0 <= m < p.len() && w[a] == p[m];
                        assert(t[a] == s[m] && t[b] == s[s.len() - 1]);
                    } else {
                        let m = choose|m: int| 0 <= m < p.len() && w[b] == p[m];
                        assert(t[b] == s[m] && t[a] == s[s.len() - 1]);
                    }
                }
            }
        }
        if villagers_inside(s) {
            assert forall|a: int| 0 <= a < t.len() && (#[trigger] t[a]).role is Villager implies interior(
                t[a].coords,
            ) by {
                if a < w.len() {
                    let m = choose|m: int| 0 <= m < p.len() && w[a] == p[m];
                    assert(t[a] == s[m]);
                } else {
                    assert(t[a] == s[s.len() - 1]);
                }
            }
        }
    }
}

/// Every rule keeps farms on distinct cells: growth only adds a farm on a
/// cell that holds none, and no rule moves a farm.
pub proof fn lemma_rule_keeps_farms_apart(
    s: Seq<Entity>,
    now: nat,
    id: nat,
    room: bool,
    e: WorldEvent,
    t: Seq<Entity>,
    id2: nat,
    out: Seq<WorldEvent>,
)
    requires
        follows_rule(s, now, id, room, e, t, id2, out),
        farms_apart(s),
    ensures
        farms_apart(t),
{
    match e {
        WorldEvent::VillagerMoved(k, d) => {
            if has_villager(s, k) {
                let i = choose|i: int| is_villager_at(s, i, k);
                assert(t == s.update(i, moved_to(s[i], stepped(s[i].coords, d))));
                lemma_update_keeps_farms(s, i, t[i]);
            }
        },
        WorldEvent::VillagerAte(k) => {
            if has_villager(s, k) {
                let i = choose|i: int| is_villager_at(s, i, k);
                assert(t == s.update(i, fed(s[i], now)));
                lemma_update_keeps_farms(s, i, t[i]);
            }
        },
        WorldEvent::VillagerHungered(k) => {
            if has_villager(s, k) {
                let i = choose|i: int| is_villager_at(s, i, k);
                if s[i].role->satiation > 0 {
                    assert(t == s.update(i, hungered(s[i], now)));
                    lemma_update_keeps_farms(s, i, t[i]);
                }
            }
        },
        WorldEvent::FarmGrew(k) => {
            if has_farm(s, k) {
                let i = choose|i: int| is_farm_at(s, i, k);
                if now - s[i].role->last_grew >= GROWTH_COOLDOWN {
                    assert(t == s.update(i, regrown(s[i], now)));
                    lemma_update_keeps_farms(s, i, t[i]);
                }
            }
        },
        WorldEvent::FarmHarvested(k) => {
            if has_farm(s, k) {
                let i = choose|i: int| is_farm_at(s, i, k);
                lemma_remove_keeps(s, i);
            }
        },
        WorldEvent::VillagerDied(k) => {
            if has_villager(s, k) {
                let i = choose|i: int| is_villager_at(s, i, k);
                lemma_update_keeps_farms(s, i, t[i]);
            }
        },
        WorldEvent::FarmAdded(c) => {
            if room && !farm_on(s, c) {
                assert forall|a: int, b: int|
                    0 <= a < t.len() && 0 <= b < t.len() && a != b && t[a].role is Farm
                        && t[b].role is Farm implies #[trigger] t[a].coords != #[trigger] t[b].coords by {
                    if a < s.len() && b < s.len() {
                        assert(t[a] == s[a] && t[b] == s[b]);
                    } else if a < s.len() {
                        assert(t[a] == s[a]);
                    } else {
                        assert(t[b] == s[b]);
                    }
                }
            }
        },
        WorldEvent::GravesCleared => {
            lemma_without_markers_keeps(s);
        },
        _ => {},
    }
}

/// Every rule keeps villagers off the border: a step never reaches it, and no
/// rule makes a villager.
pub proof fn lemma_rule_keeps_villagers_inside(
    s: Seq<Entity>,
    now: nat,
    id: nat,
    room: bool,
    e: WorldEvent,
    t: Seq<Entity>,
    id2: nat,
    out: Seq<WorldEvent>,
)
    requires
        follows_rule(s, now, id, room, e, t, id2, out),
        villagers_inside(s),
    ensures
        villagers_inside(t),
{
    match e {
        WorldEvent::VillagerMoved(k, d) => {
            if has_villager(s, k) {
                let i = choose|i: int| is_villager_at(s, i, k);
                assert(t == s.update(i, moved_to(s[i], stepped(s[i].coords, d))));
                assert(interior(s[i].coords));
                crate::movement::lemma_step_stays_interior(s[i].coords, d);
                assert forall|a: int| 0 <= a < t.len() && (#[trigger] t[a]).role is Villager implies interior(
                    t[a].coords,
                ) by {
                    if a != i {
                        assert(t[a] == s[a]);
                    }
                }
            }
        },
        WorldEvent::VillagerAte(k) => {
            if has_villager(s, k) {
                let i = choose|i: int| is_villager_at(s, i, k);
                assert(t == s.update(i, fed(s[i], now)));
                lemma_update_keeps_inside(s, i, t[i]);
            }
        },
        WorldEvent::VillagerHungered(k) => {
            if has_villager(s, k) {
                let i = choose|i: int| is_villager_at(s, i, k);
                if s[i].role->satiation > 0 {
                    assert(t == s.update(i, hungered(s[i], now)));
                    lemma_update_keeps_inside(s, i, t[i]);
                }
            }
        },
        WorldEvent::FarmGrew(k) => {
            if has_farm(s, k) {
                let i = choose|i: int| is_farm_at(s, i, k);
                if now - s[i].role->last_grew >= GROWTH_COOLDOWN {
                    assert(t == s.update(i, regrown(s[i], now)));
                    lemma_update_keeps_inside(s, i, t[i]);
                }
            }
        },
        WorldEvent::FarmHarvested(k) => {
            if has_farm(s, k) {
                let i = choose|i: int| is_farm_at(s, i, k);
                lemma_remove_keeps(s, i);
            }
        },
        WorldEvent::VillagerDied(k) => {
            if has_villager(s, k) {
                let i = choose|i: int| is_villager_at(s, i, k);
                assert forall|a: int| 0 <= a < t.len() && (#[trigger] t[a]).role is Villager implies interior(
                    t[a].coords,
                ) by {
                    assert(a != i);
                    assert(t[a] == s[a]);
                }
            }
        },
        WorldEvent::FarmAdded(c) => {
            if room && !farm_on(s, c) {
                assert forall|a: int| 0 <= a < t.len() && (#[trigger] t[a]).role is Villager implies interior(
                    t[a].coords,
                ) by {
                    assert(t[a] == s[a]);
                }
            }
        },
        WorldEvent::GravesCleared => {
            lemma_without_markers_keeps(s);
        },
        _ => {},
    }
}

/// Replacing an entity by one of the same kind on the same cell, or a
/// villager by a villager, keeps farms apart.
proof fn lemma_update_keeps_farms(s: Seq<Entity>, i: int, x: Entity)
    requires
        0 <= i < s.len(),
        farms_apart(s),
        (x.role is Farm && s[i].role is Farm && x.coords == s[i].coords) || (x.role !is Farm
            && s[i].role !is Farm),
    ensures
        farms_apart(s.update(i, x)),
{
    let t = s.update(i, x);
    assert forall|a: int, b: int|
        0 <= a < t.len() && 0 <= b < t.len() && a != b && t[a].role is Farm && t[b].role
            is Farm implies #[trigger] t[a].coords != #[trigger] t[b].coords by {
        assert(t[a].coords == s[a].coords && t[b].coords == s[b].coords);
        assert(s[a].role is Farm && s[b].role is Farm);
    }
}

/// Replacing an entity by one on the same cell, of the same kind, keeps
/// villagers inside.
proof fn lemma_update_keeps_inside(s: Seq<Entity>, i: int, x: Entity)
    requires
        0 <= i < s.len(),
        villagers_inside(s),
        x.coords == s[i].coords,
        x.role is Villager == s[i].role is Villager,
    ensures
        villagers_inside(s.update(i, x)),
{
    let t = s.update(i, x);
    assert forall|a: int| 0 <= a < t.len() && (#[trigger] t[a]).role is Villager implies interior(
        t[a].coords,
    ) by {
        if a != i {
            assert(t[a] == s[a]);
        } else {
            assert(s[a].role is Villager);
        }
    }
}

proof fn lemma_remove_keeps(s: Seq<Entity>, i: int)
    requires
        0 <= i < s.len(),
    ensures
        farms_apart(s) ==> farms_apart(s.remove(i)),
        villagers_inside(s) ==> villagers_inside(s.remove(i)),
{
    let t = s.remove(i);
    s.remove_ensures(i);
    if farms_apart(s) {
        assert forall|a: int, b: int|
            0 <= a < t.len() && 0 <= b < t.len() && a != b && t[a].role is Farm && t[b].role
                is Farm implies #[trigger] t[a].coords != #[trigger] t[b].coords by {
            let a0 = if a < i { a } else { a + 1 };
            let b0 = if b < i { b } else { b + 1 };
            assert(t[a] == s[a0] && t[b] == s[b0]);
        }
    }
    if villagers_inside(s) {
        assert forall|a: int| 0 <= a < t.len() && (#[trigger] t[a]).role is Villager implies interior(
            t[a].coords,
        ) by {
            let a0 = if a < i { a } else { a + 1 };
            assert(t[a] == s[a0]);
        }
    }
}

pub open spec fn villager_on(s: Seq<Entity>, i: int, c: Coords) -> bool {
    0 <= i < s.len() && s[i].role is Villager && s[i].coords == c
}

pub open spec fn villager_with_id(s: Seq<Entity>, i: int, id: EntityId) -> bool {
    0 <= i < s.len() && s[i].role is Villager && s[i].id == id
}

pub open spec fn villager_view(e: Entity) -> Villager {
    Villager { id: e.id, key: e.key, last_ate: e.role->last_ate }
}

pub open spec fn farm_view(e: Entity) -> Farm {
    Farm { id: e.id, key: e.key, last_grew: e.role->last_grew }
}

pub open spec fn marker_view(e: Entity) -> DeathMarker {
    DeathMarker { id: e.id, key: e.key }
}

/// The villagers, in the order of the entities.
pub open spec fn villagers_of(s: Seq<Entity>) -> Seq<Villager>
    decreases s.len(),
{
    if s.len() == 0 {
        Seq::empty()
    } else if s.last().role is Villager {
        villagers_of(s.drop_last()).push(villager_view(s.last()))
    } else {
        villagers_of(s.drop_last())
    }
}

/// The farms, in the order of the entities.
pub open spec fn farms_of(s: Seq<Entity>) -> Seq<Farm>
    decreases s.len(),
{
    if s.len() == 0 {
        Seq::empty()
    } else if s.last().role is Farm {
        farms_of(s.drop_last()).push(farm_view(s.last()))
    } else {
        farms_of(s.drop_last())
    }
}

/// The death markers, in the order of the entities.
pub open spec fn markers_of(s: Seq<Entity>) -> Seq<DeathMarker>
    decreases s.len(),
{
    if s.len() == 0 {
        Seq::empty()
    } else if s.last().role is DeathMarker {
        markers_of(s.drop_last()).push(marker_view(s.last()))
    } else {
        markers_of(s.drop_last())
    }
}

proof fn lemma_death_counts(s: Seq<Entity>, i: int, x: Entity)
    requires
        0 <= i < s.len(),
        s[i].role is Villager,
        x.role is DeathMarker,
    ensures
        count_markers(s.update(i, x)) == count_markers(s) + 1,
        villager_keys(s.update(i, x)).len() + 1 == villager_keys(s).len(),
    decreases s.len(),
{
    if i == s.len() - 1 {
        assert(s.update(i, x).drop_last() =~= s.drop_last());
    } else {
        lemma_death_counts(s.drop_last(), i, x);
        assert(s.update(i, x).drop_last() =~= s.drop_last().update(i, x));
    }
}

proof fn lemma_without_markers_counts(s: Seq<Entity>)
    ensures
        count_markers(without_markers(s)) == 0,
        villager_keys(without_markers(s)) == villager_keys(s),
        farm_keys(without_markers(s)) == farm_keys(s),
    decreases s.len(),
{
    if s.len() > 0 {
        lemma_without_markers_counts(s.drop_last());
        let w = without_markers(s.drop_last());
        if s.last().role !is DeathMarker {
            assert(w.push(s.last()).drop_last() =~= w);
        }
    }
}

/// A villager that dies leaves the world, and exactly one death marker more
/// stands in its place: on the villager's last cell, with its identifier,
/// under a key that no entity held before. The same death a second time
/// changes nothing.
pub proof fn lemma_death_once(
    s: Seq<Entity>,
    now: nat,
    id: nat,
    room: bool,
    k: EntityKey,
    i: int,
    t: Seq<Entity>,
    id2: nat,
    out: Seq<WorldEvent>,
    room2: bool,
    t2: Seq<Entity>,
    id3: nat,
    out2: Seq<WorldEvent>,
)
    requires
        keys_distinct(s),
        is_villager_at(s, i, k),
        follows_rule(s, now, id, room, WorldEvent::VillagerDied(k), t, id2, out),
        follows_rule(t, now, id2, room2, WorldEvent::VillagerDied(k), t2, id3, out2),
    ensures
        !has_villager(t, k),
        count_markers(t) == count_markers(s) + 1,
        t[i].role is DeathMarker && t[i].coords == s[i].coords && t[i].id == s[i].id,
        t[i].key != k,
        forall|j: int| 0 <= j < s.len() ==> #[trigger] s[j].key != t[i].key,
        villager_keys(t).len() + 1 == villager_keys(s).len(),
        t2 == t,
        out.len() == 0 && out2.len() == 0,
{
    lemma_death_counts(s, i, t[i]);
    if has_villager(t, k) {
        let j = choose|j: int| is_villager_at(t, j, k);
        assert(j != i);
        assert(t[j] == s[j]);
    }
}

/// Clearing the graves leaves no death marker and the same villagers and
/// farms, in the same order.
pub proof fn lemma_graves_cleared(
    s: Seq<Entity>,
    now: nat,
    id: nat,
    room: bool,
    t: Seq<Entity>,
    id2: nat,
    out: Seq<WorldEvent>,
)
    requires
        follows_rule(s, now, id, room, WorldEvent::GravesCleared, t, id2, out),
    ensures
        count_markers(t) == 0,
        villager_keys(t) == villager_keys(s),
        farm_keys(t) == farm_keys(s),
        villager_keys(t).len() == villager_keys(s).len(),
        farm_keys(t).len() == farm_keys(s).len(),
{
    lemma_without_markers_counts(s);
}

/// Eating never lowers satiation and raises it by at most one; going hungry
/// lowers it by exactly one, and only from a positive value, so satiation
/// stays in `[0, 255]` and never wraps.
pub proof fn lemma_satiation_steps(e: Entity, now: nat)
    requires
        e.role is Villager,
    ensures
        e.role->satiation <= fed(e, now).role->satiation <= e.role->satiation + 1,
        e.role->satiation > 0 ==> hungered(e, now).role->satiation == e.role->satiation - 1,
        0 <= fed(e, now).role->satiation <= 255,
{
}

/// A cascade runs its batches last pushed first: its first turn clears the
/// graves, leaving the villagers and farms as they were, and its second
/// pushes one growth event per farm on top of the farming and moving batches,
/// so all growth runs before any harvest or move.
pub proof fn lemma_cascade_order(trace: Seq<World>)
    requires
        drains(trace),
        trace[0].pending() == cascade_stack(),
    ensures
        trace.len() >= 3,
        trace[1].entities() == without_markers(trace[0].entities()),
        count_markers(trace[1].entities()) == 0,
        villager_keys(trace[1].entities()) == villager_keys(trace[0].entities()),
        farm_keys(trace[1].entities()) == farm_keys(trace[0].entities()),
        trace[1].pending() == cascade_stack().drop_last(),
        trace[2].entities() == trace[1].entities(),
        trace[2].pending() == cascade_stack().subrange(0, 2) + farm_keys(
            trace[1].entities(),
        ).map_values(|k: EntityKey| WorldEvent::FarmGrew(k)),
{
    assert(trace.len() >= 2);
    assert(dispatch_step(trace[0], trace[1]));
    let out = choose|out: Seq<WorldEvent>|
        #[trigger] trace[0].rule_step(trace[0].pending().last(), trace[1], out) && trace[1].pending()
            == trace[0].pending().drop_last() + out;
    assert(trace[0].pending().last() == WorldEvent::GravesCleared);
    lemma_graves_cleared(
        trace[0].entities(),
        trace[0].now(),
        trace[0].last_id(),
        trace[0].has_room(),
        trace[1].entities(),
        trace[1].last_id(),
        out,
    );
    assert(trace[1].pending() =~= cascade_stack().drop_last());
    assert(trace.len() >= 3);
    assert(dispatch_step(trace[1], trace[2]));
    let out2 = choose|out2: Seq<WorldEvent>|
        #[trigger] trace[1].rule_step(trace[1].pending().last(), trace[2], out2) && trace[2].pending()
            == trace[1].pending().drop_last() + out2;
    assert(trace[1].pending().last() == WorldEvent::FarmsCultivated);
    assert(trace[1].pending().drop_last() =~= cascade_stack().subrange(0, 2));
}

/// The world: entities with their attributes, the pending events and the clock.
pub struct World {
    keys: KeyAllocator,
    entities: Vec<Entity>,
    events: Vec<WorldEvent>,
    last_id: EntityId,
    ticks: Ticks,
}

/// One turn of the dispatcher from `a` to `b`: the event on top of the stack
/// is popped, its rule applied, and what it gives rise to is pushed on top,
/// so that it runs before anything that lay below.
pub open spec fn dispatch_step(a: World, b: World) -> bool {
    &&& a.pending().len() > 0
    &&& exists|out: Seq<WorldEvent>|
        #[trigger] a.rule_step(a.pending().last(), b, out) && b.pending() == a.pending().drop_last()
            + out
}

/// A whole run of the dispatcher: turn after turn until nothing is pending.
pub open spec fn drains(trace: Seq<World>) -> bool {
    &&& trace.len() >= 1
    &&& forall|j: int| 0 <= j < trace.len() - 1 ==> dispatch_step(#[trigger] trace[j], trace[j + 1])
    &&& trace.last().pending().len() == 0
}

/// The stack that starts a cascade, bottom first: the batches then run as
/// clear graves, cultivate farms, farm, move.
pub open spec fn cascade_stack() -> Seq<WorldEvent> {
    seq![
        WorldEvent::VillagersMoved,
        WorldEvent::VillagersFarmed,
        WorldEvent::FarmsCultivated,
        WorldEvent::GravesCleared,
    ]
}

/// `v` is where a cascade ends that starts on entities `s` at time `now`,
/// with last identifier `id` and `room` for one more entity.
pub open spec fn cascade_ends_in(s: Seq<Entity>, now: nat, id: nat, room: bool, v: World) -> bool {
    exists|trace: Seq<World>|
        #[trigger] drains(trace) && trace[0].entities() == s && trace[0].now() == now
            && trace[0].last_id() == id && trace[0].has_room() == room && trace[0].pending()
            == cascade_stack() && trace.last() == v
}

impl World {
    pub closed spec fn entities(&self) -> Seq<Entity> {
        self.entities@
    }

    pub closed spec fn now(&self) -> nat {
        self.ticks as nat
    }

    pub closed spec fn last_id(&self) -> nat {
        self.last_id as nat
    }

    pub closed spec fn pending(&self) -> Seq<WorldEvent> {
        self.events@
    }

    /// Whether one more entity can be made: a key and an identifier are free.
    pub closed spec fn has_room(&self) -> bool {
        &&& self.key_room()
        &&& self.last_id < usize::MAX
    }

    /// Whether one more key can be handed out.
    pub closed spec fn key_room(&self) -> bool {
        self.keys.live().len() + 1 < crate::keys::MAX_LIVE_KEYS as nat
    }

    /// The invariant of the store, whatever is pending.
    pub closed spec fn inv(&self) -> bool {
        &&& self.keys.wf()
        &&& self.keys.live().len() == self.entities@.len()
        &&& self.keys.live().len() < crate::keys::MAX_LIVE_KEYS as nat
        &&& keys_distinct(self.entities@)
        &&& forall|i: int|
            0 <= i < self.entities@.len() ==> self.keys.live().contains(
                #[trigger] self.entities@[i].key,
            )
        &&& times_past(self.entities@, self.ticks as nat)
    }

    /// A settled world: the invariant holds and nothing is pending.
    pub open spec fn wf(&self) -> bool {
        &&& self.inv()
        &&& self.pending().len() == 0
    }

    fn room(&self) -> (r: bool)
        requires
            self.inv(),
        ensures
            r == self.has_room(),
    {
        self.keys.len() < crate::keys::MAX_LIVE_KEYS - 1 && self.last_id < usize::MAX
    }

    /// The index of the entity with key `k`.
    fn find(&self, k: EntityKey) -> (r: Option<usize>)
        ensures
            r matches Some(i) ==> i < self.entities@.len() && self.entities@[i as int].key == k,
            r is None ==> forall|i: int|
                0 <= i < self.entities@.len() ==> #[trigger] self.entities@[i].key != k,
    {
        let mut i: usize = 0;
        while i < self.entities.len()
            invariant
                i <= self.entities@.len(),
                forall|j: int| 0 <= j < i ==> #[trigger] self.entities@[j].key != k,
            decreases self.entities@.len() - i,
        {
            if self.entities[i].key == k {
                return Some(i);
            }
            i = i + 1;
        }
        None
    }

    /// Removes the entity at index `i` and releases its key.
    fn remove_at(&mut self, i: usize)
        requires
            old(self).inv(),
            i < old(self).entities@.len(),
        ensures
            final(self).inv(),
            final(self).entities@ == old(self).entities@.remove(i as int),
            final(self).events == old(self).events,
            final(self).ticks == old(self).ticks,
            final(self).last_id == old(self).last_id,
            final(self).key_room(),
    {
        let ghost s = self.entities@;
        let e = self.entities.remove(i);
        proof {
            s.remove_ensures(i as int);
        }
        self.keys.release(e.key);
        let ghost t = self.entities@;
        assert forall|a: int, b: int|
            0 <= a < t.len() && 0 <= b < t.len() && a != b implies #[trigger] t[a].key
            != #[trigger] t[b].key by {
            let a0 = if a < i { a } else { a + 1 };
            let b0 = if b < i { b } else { b + 1 };
            assert(t[a] == s[a0] && t[b] == s[b0]);
        }
        assert forall|a: int| 0 <= a < t.len() implies self.keys.live().contains(
            #[trigger] t[a].key,
        ) by {
            let a0 = if a < i { a } else { a + 1 };
            assert(t[a] == s[a0]);
            assert(s[a0].key != s[i as int].key);
        }
        assert forall|a: int| 0 <= a < t.len() implies match #[trigger] t[a].role {
            Role::Villager { last_ate, .. } => last_ate <= self.ticks,
            Role::Farm { last_grew } => last_grew <= self.ticks,
            Role::DeathMarker => true,
        } by {
            let a0 = if a < i { a } else { a + 1 };
            assert(t[a] == s[a0]);
        }
    }

    /// Makes a new entity with a fresh key.
    fn spawn(&mut self, id: EntityId, coords: Coords, role: Role) -> (r: Entity)
        requires
            old(self).inv(),
            old(self).key_room(),
            times_past(seq![Entity { key: 0, id: 0, coords, role }], old(self).ticks as nat),
        ensures
            final(self).inv(),
            r == (Entity { key: r.key, id, coords, role }),
            forall|i: int|
                0 <= i < old(self).entities@.len() ==> #[trigger] old(self).entities@[i].key
                    != r.key,
            final(self).entities@ == old(self).entities@.push(r),
            final(self).last_id == old(self).last_id,
            final(self).events == old(self).events,
            final(self).ticks == old(self).ticks,
    {
        let ghost s = self.entities@;
        let key = self.keys.allocate();
        let e = Entity { key, id, coords, role };
        self.entities.push(e);
        let ghost t = self.entities@;
        assert(seq![Entity { key: 0, id: 0, coords, role }][0].role == role);
        assert forall|a: int| 0 <= a < t.len() implies match #[trigger] t[a].role {
            Role::Villager { last_ate, .. } => last_ate <= self.ticks,
            Role::Farm { last_grew } => last_grew <= self.ticks,
            Role::DeathMarker => true,
        } by {
            if a < s.len() {
                assert(t[a] == s[a]);
            }
        }
        assert forall|a: int| 0 <= a < s.len() implies #[trigger] s[a].key != key by {
            assert(self.keys.live().contains(t[a].key));
        }
        e
    }

    /// One application of a rule from `self` to `t`: the invariant is kept,
    /// the clock does not change, and `e` follows its rule, giving rise to `out`.
    pub open spec fn rule_step(&self, e: WorldEvent, t: World, out: Seq<WorldEvent>) -> bool {
        &&& t.inv()
        &&& t.now() == self.now()
        &&& follows_rule(
            self.entities(),
            self.now(),
            self.last_id(),
            self.has_room(),
            e,
            t.entities(),
            t.last_id(),
            out,
        )
    }

    /// A rule applied outside the dispatcher: nothing pending changes either.
    pub open spec fn steps_to(&self, e: WorldEvent, t: World, out: Seq<WorldEvent>) -> bool {
        &&& self.rule_step(e, t, out)
        &&& t.pending() == self.pending()
    }

    /// Puts `e` in place of the entity at index `i`, which has the same key.
    fn replace_at(&mut self, i: usize, e: Entity)
        requires
            old(self).inv(),
            i < old(self).entities@.len(),
            e.key == old(self).entities@[i as int].key,
            times_past(seq![e], old(self).ticks as nat),
        ensures
            final(self).inv(),
            final(self).entities@ == old(self).entities@.update(i as int, e),
            final(self).events == old(self).events,
            final(self).ticks == old(self).ticks,
            final(self).last_id == old(self).last_id,
            final(self).keys == old(self).keys,
    {
        let ghost s = self.entities@;
        self.entities.set(i, e);
        let ghost t = self.entities@;
        assert(seq![e][0] == e);
        assert forall|a: int, b: int|
            0 <= a < t.len() && 0 <= b < t.len() && a != b implies #[trigger] t[a].key
            != #[trigger] t[b].key by {
            assert(s[a].key == t[a].key && s[b].key == t[b].key);
        }
        assert forall|a: int| 0 <= a < t.len() implies self.keys.live().contains(
            #[trigger] t[a].key,
        ) by {
            assert(s[a].key == t[a].key);
        }
        assert forall|a: int| 0 <= a < t.len() implies match #[trigger] t[a].role {
            Role::Villager { last_ate, .. } => last_ate <= self.ticks,
            Role::Farm { last_grew } => last_grew <= self.ticks,
            Role::DeathMarker => true,
        } by {
            if a != i {
                assert(t[a] == s[a]);
            }
        }
    }

    /// The index of the villager with key `k`, if it is one.
    fn find_villager(&self, k: EntityKey) -> (r: Option<usize>)
        requires
            self.inv(),
        ensures
            r matches Some(i) ==> is_villager_at(self.entities@, i as int, k) && forall|j: int|
                #![trigger is_villager_at(self.entities@, j, k)]
                is_villager_at(self.entities@, j, k) ==> j == i,
            r is None ==> !has_villager(self.entities@, k),
    {
        match self.find(k) {
            Some(i) => {
                if let Role::Villager { .. } = self.entities[i].role {
                    Some(i)
                } else {
                    None
                }
            },
            None => None,
        }
    }

    /// The index of the farm with key `k`, if it is one.
    fn find_farm(&self, k: EntityKey) -> (r: Option<usize>)
        requires
            self.inv(),
        ensures
            r matches Some(i) ==> is_farm_at(self.entities@, i as int, k) && forall|j: int|
                #![trigger is_farm_at(self.entities@, j, k)]
                is_farm_at(self.entities@, j, k) ==> j == i,
            r is None ==> !has_farm(self.entities@, k),
    {
        match self.find(k) {
            Some(i) => {
                if let Role::Farm { .. } = self.entities[i].role {
                    Some(i)
                } else {
                    None
                }
            },
            None => None,
        }
    }

    fn villager_moved(&mut self, k: EntityKey, d: Direction) -> (out: Vec<WorldEvent>)
        requires
            old(self).inv(),
        ensures
            old(self).steps_to(WorldEvent::VillagerMoved(k, d), *final(self), out@),
    {
        if let Some(i) = self.find_villager(k) {
            let e = self.entities[i];
            let moved = Entity { key: e.key, id: e.id, coords: coords_after_move(e.coords, d), role: e.role };
            proof {
                assert(times_past(seq![self.entities@[i as int]], self.ticks as nat));
                assert(seq![moved] =~= seq![self.entities@[i as int]].update(0, moved));
            }
            self.replace_at(i, moved);
        }
        Vec::new()
    }

    fn villager_ate(&mut self, k: EntityKey) -> (out: Vec<WorldEvent>)
        requires
            old(self).inv(),
        ensures
            old(self).steps_to(WorldEvent::VillagerAte(k), *final(self), out@),
    {
        if let Some(i) = self.find_villager(k) {
            let e = self.entities[i];
            if let Role::Villager { satiation, .. } = e.role {
                let satiation = if satiation < 255 {
                    satiation + 1
                } else {
                    satiation
                };
                let v = Entity { key: e.key, id: e.id, coords: e.coords, role: Role::Villager { last_ate: self.ticks, satiation } };
                proof {
                    assert(seq![v][0] == v);
                }
                self.replace_at(i, v);
            }
        }
        Vec::new()
    }

    fn villager_hungered(&mut self, k: EntityKey) -> (out: Vec<WorldEvent>)
        requires
            old(self).inv(),
        ensures
            old(self).steps_to(WorldEvent::VillagerHungered(k), *final(self), out@),
            expands_to(WorldEvent::VillagerHungered(k), out@),
    {
        let mut out = Vec::new();
        if let Some(i) = self.find_villager(k) {
            let e = self.entities[i];
            if let Role::Villager { satiation, .. } = e.role {
                if satiation > 0 {
                    let v = Entity { key: e.key, id: e.id, coords: e.coords, role: Role::Villager { last_ate: self.ticks, satiation: satiation - 1 } };
                    proof {
                        assert(seq![v][0] == v);
                    }
                    self.replace_at(i, v);
                } else {
                    out.push(WorldEvent::VillagerDied(k));
                    proof {
                        assert(out@ =~= seq![WorldEvent::VillagerDied(k)]);
                    }
                }
            }
        }
        proof {
            lemma_measure_short(out@);
        }
        out
    }

    fn farm_harvested(&mut self, k: EntityKey) -> (out: Vec<WorldEvent>)
        requires
            old(self).inv(),
        ensures
            old(self).steps_to(WorldEvent::FarmHarvested(k), *final(self), out@),
    {
        if let Some(i) = self.find_farm(k) {
            self.remove_at(i);
        }
        Vec::new()
    }

    fn villager_died(&mut self, k: EntityKey) -> (out: Vec<WorldEvent>)
        requires
            old(self).inv(),
        ensures
            old(self).steps_to(WorldEvent::VillagerDied(k), *final(self), out@),
    {
        if let Some(i) = self.find_villager(k) {
            let ghost s = self.entities@;
            let e = self.entities[i];
            let m = self.keys.allocate();
            self.keys.release(k);
            self.entities.set(i, Entity { key: m, id: e.id, coords: e.coords, role: Role::DeathMarker });
            let ghost t = self.entities@;
            assert forall|a: int, b: int|
                0 <= a < t.len() && 0 <= b < t.len() && a != b implies #[trigger] t[a].key
                != #[trigger] t[b].key by {
                if a != i && b != i {
                    assert(t[a] == s[a] && t[b] == s[b]);
                } else if a == i {
                    assert(t[b] == s[b]);
                } else {
                    assert(t[a] == s[a]);
                }
            }
            assert forall|a: int| 0 <= a < t.len() implies self.keys.live().contains(
                #[trigger] t[a].key,
            ) by {
                if a != i {
                    assert(t[a] == s[a]);
                    assert(s[a].key != s[i as int].key);
                }
            }
            assert forall|a: int| 0 <= a < t.len() implies match #[trigger] t[a].role {
                Role::Villager { last_ate, .. } => last_ate <= self.ticks,
                Role::Farm { last_grew } => last_grew <= self.ticks,
                Role::DeathMarker => true,
            } by {
                if a != i {
                    assert(t[a] == s[a]);
                }
            }
            assert forall|j: int| 0 <= j < s.len() implies #[trigger] s[j].key != t[i as int].key by {
                assert(old(self).keys.live().contains(s[j].key));
            }
        }
        Vec::new()
    }

    /// Whether a farm stands on cell `c`.
    fn farm_on_cell(&self, c: Coords) -> (r: bool)
        ensures
            r == farm_on(self.entities@, c),
    {
        let mut i: usize = 0;
        while i < self.entities.len()
            invariant
                i <= self.entities@.len(),
                forall|j: int|
                    0 <= j < i ==> !((#[trigger] self.entities@[j]).role is Farm && self.entities@[j].coords == c),
            decreases self.entities@.len() - i,
        {
            let e = self.entities[i];
            if let Role::Farm { .. } = e.role {
                if e.coords.0 == c.0 && e.coords.1 == c.1 {
                    return true;
                }
            }
            i = i + 1;
        }
        false
    }

    fn farm_added(&mut self, c: Coords) -> (out: Vec<WorldEvent>)
        requires
            old(self).inv(),
        ensures
            old(self).steps_to(WorldEvent::FarmAdded(c), *final(self), out@),
    {
        if self.room() && !self.farm_on_cell(c) {
            let id = self.last_id + 1;
            proof {
                assert(seq![Entity { key: 0, id: 0, coords: c, role: Role::Farm { last_grew: self.ticks } }][0].role
                    == Role::Farm { last_grew: self.ticks });
            }
            self.spawn(id, c, Role::Farm { last_grew: self.ticks });
            self.last_id = id;
        }
        Vec::new()
    }

    /// The neighbours of `c` that lie off the border and hold no farm.
    fn free_neighbours_of(&self, c: Coords) -> (r: Vec<Coords>)
        ensures
            r@ == free_neighbours(self.entities@, c),
    {
        let mut r: Vec<Coords> = Vec::new();
        let mut n: usize = 0;
        while n < 4
            invariant
                n <= 4,
                r@ == free_cells(self.entities@, c, n as nat),
            decreases 4 - n,
        {
            let d = direction_from_index(n);
            if can_move_in_dir(c, d) {
                let cell = coords_after_move(c, d);
                if !self.farm_on_cell(cell) {
                    r.push(cell);
                }
            }
            n = n + 1;
        }
        r
    }

    fn farm_grew<R: RandomSource>(&mut self, k: EntityKey, rng: &mut R) -> (out: Vec<WorldEvent>)
        requires
            old(self).inv(),
        ensures
            old(self).steps_to(WorldEvent::FarmGrew(k), *final(self), out@),
            expands_to(WorldEvent::FarmGrew(k), out@),
    {
        let mut out: Vec<WorldEvent> = Vec::new();
        if let Some(i) = self.find_farm(k) {
            let e = self.entities[i];
            if let Role::Farm { last_grew } = e.role {
                assert(times_past(self.entities@, self.ticks as nat));
                assert(match self.entities@[i as int].role {
                    Role::Villager { last_ate, .. } => last_ate <= self.ticks,
                    Role::Farm { last_grew } => last_grew <= self.ticks,
                    Role::DeathMarker => true,
                });
                if self.ticks - last_grew < GROWTH_COOLDOWN {
                    proof {
                        lemma_measure_short(out@);
                    }
                    return out;
                }
                let free = self.free_neighbours_of(e.coords);
                let g = Entity { key: e.key, id: e.id, coords: e.coords, role: Role::Farm { last_grew: self.ticks } };
                proof {
                    assert(seq![g][0] == g);
                }
                self.replace_at(i, g);
                if free.len() > 0 {
                    let r = rng.index_below(free.len());
                    out.push(WorldEvent::FarmAdded(free[r]));
                    proof {
                        assert(free@.contains(free@[r as int]));
                    }
                }
            }
        }
        proof {
            lemma_measure_short(out@);
        }
        out
    }

    /// The keys of the farms, in order.
    fn farm_keys_vec(&self) -> (r: Vec<EntityKey>)
        ensures
            r@ == farm_keys(self.entities@),
    {
        let ghost s = self.entities@;
        let mut r: Vec<EntityKey> = Vec::new();
        let mut i: usize = 0;
        while i < self.entities.len()
            invariant
                s == self.entities@,
                i <= s.len(),
                r@ == farm_keys(s.subrange(0, i as int)),
            decreases s.len() - i,
        {
            assert(s.subrange(0, i + 1).drop_last() =~= s.subrange(0, i as int));
            if let Role::Farm { .. } = self.entities[i].role {
                r.push(self.entities[i].key);
            }
            i = i + 1;
        }
        assert(s.subrange(0, s.len() as int) =~= s);
        r
    }

    /// The keys of the villagers, in order.
    fn villager_keys_vec(&self) -> (r: Vec<EntityKey>)
        ensures
            r@ == villager_keys(self.entities@),
    {
        let ghost s = self.entities@;
        let mut r: Vec<EntityKey> = Vec::new();
        let mut i: usize = 0;
        while i < self.entities.len()
            invariant
                s == self.entities@,
                i <= s.len(),
                r@ == villager_keys(s.subrange(0, i as int)),
            decreases s.len() - i,
        {
            assert(s.subrange(0, i + 1).drop_last() =~= s.subrange(0, i as int));
            if let Role::Villager { .. } = self.entities[i].role {
                r.push(self.entities[i].key);
            }
            i = i + 1;
        }
        assert(s.subrange(0, s.len() as int) =~= s);
        r
    }

    fn villager_harvested<R: RandomSource>(&mut self, k: EntityKey, rng: &mut R) -> (out: Vec<
        WorldEvent,
    >)
        requires
            old(self).inv(),
        ensures
            old(self).steps_to(WorldEvent::VillagerHarvested(k), *final(self), out@),
            expands_to(WorldEvent::VillagerHarvested(k), out@),
    {
        let mut out: Vec<WorldEvent> = Vec::new();
        if let Some(i) = self.find_villager(k) {
            let e = self.entities[i];
            if let Role::Villager { last_ate, satiation } = e.role {
                assert(times_past(self.entities@, self.ticks as nat));
                assert(match self.entities@[i as int].role {
                    Role::Villager { last_ate, .. } => last_ate <= self.ticks,
                    Role::Farm { last_grew } => last_grew <= self.ticks,
                    Role::DeathMarker => true,
                });
                let need = satiation < HUNGRY_BELOW && self.ticks - last_ate < FED_WITHIN;
                if need {
                    let farms = self.farm_keys_vec();
                    if farms.len() > 0 {
                        let r = rng.index_below(farms.len());
                        out.push(WorldEvent::FarmHarvested(farms[r]));
                        out.push(WorldEvent::VillagerAte(k));
                        proof {
                            assert(farms@.contains(farms@[r as int]));
                        }
                    } else {
                        out.push(WorldEvent::VillagerHungered(k));
                        proof {
                            assert(out@ =~= seq![WorldEvent::VillagerHungered(k)]);
                        }
                    }
                }
            }
        }
        proof {
            lemma_measure_short(out@);
        }
        out
    }

    /// The index of the first death marker.
    fn find_marker(&self) -> (r: Option<usize>)
        ensures
            r matches Some(i) ==> i < self.entities@.len() && self.entities@[i as int].role is DeathMarker,
            r is None ==> forall|j: int|
                0 <= j < self.entities@.len() ==> (#[trigger] self.entities@[j]).role !is DeathMarker,
    {
        let mut i: usize = 0;
        while i < self.entities.len()
            invariant
                i <= self.entities@.len(),
                forall|j: int| 0 <= j < i ==> (#[trigger] self.entities@[j]).role !is DeathMarker,
            decreases self.entities@.len() - i,
        {
            if let Role::DeathMarker = self.entities[i].role {
                return Some(i);
            }
            i = i + 1;
        }
        None
    }

    fn graves_cleared(&mut self) -> (out: Vec<WorldEvent>)
        requires
            old(self).inv(),
        ensures
            old(self).steps_to(WorldEvent::GravesCleared, *final(self), out@),
    {
        let ghost s0 = self.entities@;
        let mut next = self.find_marker();
        while next.is_some()
            invariant
                self.inv(),
                self.events == old(self).events,
                self.ticks == old(self).ticks,
                self.last_id == old(self).last_id,
                without_markers(self.entities@) == without_markers(s0),
                next matches Some(i) ==> i < self.entities@.len()
                    && self.entities@[i as int].role is DeathMarker,
                next is None ==> forall|j: int|
                    0 <= j < self.entities@.len() ==> (#[trigger] self.entities@[j]).role !is DeathMarker,
            decreases self.entities@.len(),
        {
            let i = next.unwrap();
            proof {
                lemma_without_marker_removed(self.entities@, i as int);
            }
            self.remove_at(i);
            next = self.find_marker();
        }
        proof {
            lemma_without_markers_none(self.entities@);
        }
        Vec::new()
    }

    fn farms_cultivated(&mut self) -> (out: Vec<WorldEvent>)
        requires
            old(self).inv(),
        ensures
            old(self).steps_to(WorldEvent::FarmsCultivated, *final(self), out@),
            expands_to(WorldEvent::FarmsCultivated, out@),
    {
        let keys = self.farm_keys_vec();
        let mut out: Vec<WorldEvent> = Vec::new();
        let mut j: usize = 0;
        while j < keys.len()
            invariant
                j <= keys@.len(),
                out@.len() == j,
                forall|m: int| 0 <= m < j ==> #[trigger] out@[m] == WorldEvent::FarmGrew(keys@[m]),
            decreases keys@.len() - j,
        {
            out.push(WorldEvent::FarmGrew(keys[j]));
            j = j + 1;
        }
        assert(out@ =~= keys@.map_values(|k: EntityKey| WorldEvent::FarmGrew(k)));
        proof {
            lemma_no_batches(out@);
        }
        out
    }

    fn villagers_farmed(&mut self) -> (out: Vec<WorldEvent>)
        requires
            old(self).inv(),
        ensures
            old(self).steps_to(WorldEvent::VillagersFarmed, *final(self), out@),
            expands_to(WorldEvent::VillagersFarmed, out@),
    {
        let keys = self.villager_keys_vec();
        let mut out: Vec<WorldEvent> = Vec::new();
        let mut j: usize = 0;
        while j < keys.len()
            invariant
                j <= keys@.len(),
                out@.len() == j,
                forall|m: int|
                    0 <= m < j ==> #[trigger] out@[m] == WorldEvent::VillagerHarvested(keys@[m]),
            decreases keys@.len() - j,
        {
            out.push(WorldEvent::VillagerHarvested(keys[j]));
            j = j + 1;
        }
        assert(out@ =~= keys@.map_values(|k: EntityKey| WorldEvent::VillagerHarvested(k)));
        proof {
            lemma_no_batches(out@);
        }
        out
    }

    fn villagers_moved<R: RandomSource>(&mut self, rng: &mut R) -> (out: Vec<WorldEvent>)
        requires
            old(self).inv(),
        ensures
            old(self).steps_to(WorldEvent::VillagersMoved, *final(self), out@),
            expands_to(WorldEvent::VillagersMoved, out@),
    {
        let keys = self.villager_keys_vec();
        let mut out: Vec<WorldEvent> = Vec::new();
        let mut j: usize = 0;
        while j < keys.len()
            invariant
                j <= keys@.len(),
                out@.len() == j,
                forall|m: int|
                    0 <= m < j ==> (#[trigger] out@[m] matches WorldEvent::VillagerMoved(k, _) && k
                        == keys@[m]),
            decreases keys@.len() - j,
        {
            let d = direction_from_index(rng.index_below(4));
            out.push(WorldEvent::VillagerMoved(keys[j], d));
            j = j + 1;
        }
        proof {
            lemma_no_batches(out@);
        }
        out
    }

    /// Applies the rule of one event and returns the events it gives rise
    /// to, in the order in which they are to be pushed.
    pub fn handle_event<R: RandomSource>(&mut self, e: WorldEvent, rng: &mut R) -> (out: Vec<
        WorldEvent,
    >)
        requires
            old(self).inv(),
        ensures
            old(self).steps_to(e, *final(self), out@),
            expands_to(e, out@),
    {
        match e {
            WorldEvent::VillagerMoved(k, d) => self.villager_moved(k, d),
            WorldEvent::VillagerAte(k) => self.villager_ate(k),
            WorldEvent::VillagerHungered(k) => self.villager_hungered(k),
            WorldEvent::FarmGrew(k) => self.farm_grew(k, rng),
            WorldEvent::FarmHarvested(k) => self.farm_harvested(k),
            WorldEvent::VillagerDied(k) => self.villager_died(k),
            WorldEvent::FarmAdded(c) => self.farm_added(c),
            WorldEvent::VillagerHarvested(k) => self.villager_harvested(k, rng),
            WorldEvent::GravesCleared => self.graves_cleared(),
            WorldEvent::FarmsCultivated => self.farms_cultivated(),
            WorldEvent::VillagersFarmed => self.villagers_farmed(),
            WorldEvent::VillagersMoved => self.villagers_moved(rng),
        }
    }

    /// Drains the stack of pending events: pops the last one, applies its
    /// rule, and pushes what it gives rise to on top, so that those run
    /// before anything pushed earlier. Ends because a batch event gives rise
    /// only to fine-grained events, and a fine-grained event only to events
    /// of less weight.
    fn process_events<R: RandomSource>(&mut self, rng: &mut R)
        requires
            old(self).inv(),
        ensures
            final(self).inv(),
            final(self).pending().len() == 0,
            final(self).ticks == old(self).ticks,
            final(self).last_id >= old(self).last_id,
            exists|trace: Seq<World>|
                #[trigger] drains(trace) && trace[0] == *old(self) && trace.last() == *final(self),
            farms_apart(old(self).entities@) ==> farms_apart(final(self).entities@),
            villagers_inside(old(self).entities@) ==> villagers_inside(final(self).entities@),
    {
        let ghost mut trace: Seq<World> = seq![*self];
        while self.events.len() > 0
            invariant
                self.inv(),
                self.ticks == old(self).ticks,
                self.last_id >= old(self).last_id,
                trace.len() >= 1,
                trace[0] == *old(self),
                trace.last() == *self,
                forall|j: int| 0 <= j < trace.len() - 1 ==> dispatch_step(#[trigger] trace[j], trace[j + 1]),
                farms_apart(old(self).entities@) ==> farms_apart(self.entities@),
                villagers_inside(old(self).entities@) ==> villagers_inside(self.entities@),
            decreases batches(self.events@), load(self.events@),
        {
            let ghost before = *self;
            let e = self.events.pop().unwrap();
            proof {
                assert(before.events@ =~= self.events@.push(e));
                lemma_measure_push(self.events@, e);
            }
            let ghost mid = *self;
            let mut out = self.handle_event(e, rng);
            let ghost outs = out@;
            proof {
                if farms_apart(mid.entities@) {
                    lemma_rule_keeps_farms_apart(
                        mid.entities@,
                        mid.ticks as nat,
                        mid.last_id as nat,
                        mid.has_room(),
                        e,
                        self.entities@,
                        self.last_id as nat,
                        out@,
                    );
                }
                if villagers_inside(mid.entities@) {
                    lemma_rule_keeps_villagers_inside(
                        mid.entities@,
                        mid.ticks as nat,
                        mid.last_id as nat,
                        mid.has_room(),
                        e,
                        self.entities@,
                        self.last_id as nat,
                        out@,
                    );
                }
                lemma_measure_concat(self.events@, out@);
            }
            self.events.append(&mut out);
            proof {
                assert(before.pending().last() == e);
                assert(self.pending() == before.pending().drop_last() + outs);
                assert(before.rule_step(e, *self, outs));
                assert(dispatch_step(before, *self));
                let old_trace = trace;
                trace = trace.push(*self);
                assert forall|j: int| 0 <= j < trace.len() - 1 implies dispatch_step(
                    #[trigger] trace[j],
                    trace[j + 1],
                ) by {
                    if j < old_trace.len() - 1 {
                        assert(trace[j] == old_trace[j] && trace[j + 1] == old_trace[j + 1]);
                    } else {
                        assert(trace[j] == before && trace[j + 1] == *self);
                    }
                }
            }
        }
        assert(drains(trace));
    }

    /// Runs one cascade: the four batch events are pushed in the order
    /// moved, farmed, cultivated, cleared, so they run in the reverse order.
    fn advance_world<R: RandomSource>(&mut self, rng: &mut R)
        requires
            old(self).inv(),
            old(self).pending().len() == 0,
        ensures
            final(self).wf(),
            final(self).ticks == old(self).ticks,
            final(self).last_id >= old(self).last_id,
            cascade_ends_in(
                old(self).entities(),
                old(self).now(),
                old(self).last_id(),
                old(self).has_room(),
                *final(self),
            ),
            farms_apart(old(self).entities@) ==> farms_apart(final(self).entities@),
            villagers_inside(old(self).entities@) ==> villagers_inside(final(self).entities@),
    {
        self.events.push(WorldEvent::VillagersMoved);
        self.events.push(WorldEvent::VillagersFarmed);
        self.events.push(WorldEvent::FarmsCultivated);
        self.events.push(WorldEvent::GravesCleared);
        assert(self.pending() =~= cascade_stack());
        let ghost start = *self;
        self.process_events(rng);
        proof {
            let trace = choose|trace: Seq<World>|
                #[trigger] drains(trace) && trace[0] == start && trace.last() == *self;
            assert(drains(trace) && trace[0].entities() == old(self).entities());
        }
    }

    /// Advances the clock by one, drawing choices from `rng`. A cascade runs
    /// on every tick that brings the clock to a multiple of the interval:
    /// the twentieth, the fortieth, and so on.
    pub fn tick_with<R: RandomSource>(&mut self, rng: &mut R)
        requires
            old(self).wf(),
            old(self).now() + 1 <= usize::MAX,
        ensures
            final(self).wf(),
            final(self).now() == old(self).now() + 1,
            final(self).last_id() >= old(self).last_id(),
            final(self).now() % TICK_INTERVAL as nat != 0 ==> final(self).entities()
                == old(self).entities() && final(self).last_id() == old(self).last_id(),
            final(self).now() % TICK_INTERVAL as nat == 0 ==> cascade_ends_in(
                old(self).entities(),
                final(self).now(),
                old(self).last_id(),
                old(self).has_room(),
                *final(self),
            ),
            farms_apart(old(self).entities()) ==> farms_apart(final(self).entities()),
            villagers_inside(old(self).entities()) ==> villagers_inside(final(self).entities()),
    {
        self.ticks = self.ticks + 1;
        assert(times_past(self.entities@, self.ticks as nat)) by {
            assert forall|a: int| 0 <= a < self.entities@.len() implies match #[trigger] self.entities@[a].role {
                Role::Villager { last_ate, .. } => last_ate <= self.ticks,
                Role::Farm { last_grew } => last_grew <= self.ticks,
                Role::DeathMarker => true,
            } by {
                assert(match old(self).entities@[a].role {
                    Role::Villager { last_ate, .. } => last_ate <= old(self).ticks,
                    Role::Farm { last_grew } => last_grew <= old(self).ticks,
                    Role::DeathMarker => true,
                });
            }
        }
        if self.ticks % TICK_INTERVAL == 0 {
            self.advance_world(rng);
        }
    }

    /// Advances the clock by one, drawing choices from the thread's generator.
    pub fn tick(&mut self)
        requires
            old(self).wf(),
            old(self).now() + 1 <= usize::MAX,
        ensures
            final(self).wf(),
            final(self).now() == old(self).now() + 1,
            final(self).last_id() >= old(self).last_id(),
            final(self).now() % TICK_INTERVAL as nat != 0 ==> final(self).entities()
                == old(self).entities() && final(self).last_id() == old(self).last_id(),
            final(self).now() % TICK_INTERVAL as nat == 0 ==> cascade_ends_in(
                old(self).entities(),
                final(self).now(),
                old(self).last_id(),
                old(self).has_room(),
                *final(self),
            ),
            farms_apart(old(self).entities()) ==> farms_apart(final(self).entities()),
            villagers_inside(old(self).entities()) ==> villagers_inside(final(self).entities()),
    {
        let mut rng = ThreadRandom;
        self.tick_with(&mut rng);
    }

    /// Whether one more entity can be placed.
    pub fn can_add(&self) -> (r: bool)
        requires
            self.inv(),
        ensures
            r == self.has_room(),
    {
        self.room()
    }

    /// Places a villager on `(x, y)` with satiation 1, fed now; returns its
    /// new identifier.
    pub fn add_villager_at(&mut self, x: u8, y: u8) -> (r: EntityId)
        requires
            old(self).inv(),
            old(self).has_room(),
        ensures
            final(self).inv(),
            final(self).pending() == old(self).pending(),
            final(self).now() == old(self).now(),
            r == old(self).last_id() + 1,
            final(self).last_id() == r,
            final(self).entities().len() == old(self).entities().len() + 1,
            final(self).entities() == old(self).entities().push(
                Entity { key: final(self).entities().last().key, id: r, coords: (x, y), role: Role::Villager { last_ate: old(self).now() as usize, satiation: 1 } },
            ),
            !old(self).has_key(final(self).entities().last().key),
    {
        let id = self.last_id + 1;
        let role = Role::Villager { last_ate: self.ticks, satiation: 1 };
        proof {
            assert(seq![Entity { key: 0, id: 0, coords: (x, y), role }][0].role == role);
        }
        self.spawn(id, (x, y), role);
        self.last_id = id;
        id
    }

    /// Places a farm on `(x, y)` that grew now; returns its new identifier.
    pub fn add_farm_at(&mut self, x: u8, y: u8) -> (r: EntityId)
        requires
            old(self).inv(),
            old(self).has_room(),
        ensures
            final(self).inv(),
            final(self).pending() == old(self).pending(),
            final(self).now() == old(self).now(),
            r == old(self).last_id() + 1,
            final(self).last_id() == r,
            final(self).entities().len() == old(self).entities().len() + 1,
            final(self).entities() == old(self).entities().push(
                Entity { key: final(self).entities().last().key, id: r, coords: (x, y), role: Role::Farm { last_grew: old(self).now() as usize } },
            ),
            !old(self).has_key(final(self).entities().last().key),
    {
        let id = self.last_id + 1;
        let role = Role::Farm { last_grew: self.ticks };
        proof {
            assert(seq![Entity { key: 0, id: 0, coords: (x, y), role }][0].role == role);
        }
        self.spawn(id, (x, y), role);
        self.last_id = id;
        id
    }

    pub open spec fn has_key(&self, k: EntityKey) -> bool {
        exists|i: int| 0 <= i < self.entities().len() && #[trigger] self.entities()[i].key == k
    }

    /// An empty world at time 0.
    fn empty() -> (r: World)
        ensures
            r.wf(),
            r.entities().len() == 0,
            r.now() == 0,
            r.last_id() == 0,
            r.has_room(),
    {
        World { keys: KeyAllocator::new(), entities: Vec::new(), events: Vec::new(), last_id: 0, ticks: 0 }
    }

    /// The starting world: one villager on (4, 4) and farms on (5, 4),
    /// (5, 5) and (5, 6), with identifiers 1 to 4, at time 0.
    pub fn new() -> (r: World)
        ensures
            r.wf(),
            r.now() == 0,
            r.last_id() == 4,
            r.entities().len() == 4,
            r.entities()[0].id == 1 && r.entities()[0].coords == (4u8, 4u8) && r.entities()[0].role
                == (Role::Villager { last_ate: 0, satiation: 1 }),
            r.entities()[1].id == 2 && r.entities()[1].coords == (5u8, 4u8) && r.entities()[1].role
                == (Role::Farm { last_grew: 0 }),
            r.entities()[2].id == 3 && r.entities()[2].coords == (5u8, 5u8) && r.entities()[2].role
                == (Role::Farm { last_grew: 0 }),
            r.entities()[3].id == 4 && r.entities()[3].coords == (5u8, 6u8) && r.entities()[3].role
                == (Role::Farm { last_grew: 0 }),
            farms_apart(r.entities()),
            villagers_inside(r.entities()),
            r.has_room(),
    {
        let mut world = World::empty();
        world.add_villager_at(4, 4);
        world.add_farm_at(5, 4);
        world.add_farm_at(5, 5);
        world.add_farm_at(5, 6);
        world
    }

    /// The identifier of the first villager on `(x, y)`.
    pub fn villager_id_at(&self, x: u8, y: u8) -> (r: Option<EntityId>)
        ensures
            r is None ==> forall|i: int| !villager_on(self.entities(), i, (x, y)),
            r matches Some(id) ==> exists|i: int|
                #[trigger] villager_on(self.entities(), i, (x, y)) && self.entities()[i].id == id
                    && forall|j: int| 0 <= j < i ==> !villager_on(self.entities(), j, (x, y)),
    {
        let mut i: usize = 0;
        while i < self.entities.len()
            invariant
                i <= self.entities@.len(),
                forall|j: int| 0 <= j < i ==> !villager_on(self.entities@, j, (x, y)),
            decreases self.entities@.len() - i,
        {
            let e = self.entities[i];
            if let Role::Villager { .. } = e.role {
                if e.coords.0 == x && e.coords.1 == y {
                    assert(villager_on(self.entities(), i as int, (x, y)));
                    return Some(e.id);
                }
            }
            i = i + 1;
        }
        None
    }

    /// A copy of the first villager with identifier `id`.
    pub fn villager(&self, id: EntityId) -> (r: Option<Villager>)
        ensures
            r is None ==> forall|i: int| !villager_with_id(self.entities(), i, id),
            r matches Some(v) ==> exists|i: int|
                #[trigger] villager_with_id(self.entities(), i, id) && v == villager_view(
                    self.entities()[i],
                ) && forall|j: int| 0 <= j < i ==> !villager_with_id(self.entities(), j, id),
    {
        let mut i: usize = 0;
        while i < self.entities.len()
            invariant
                i <= self.entities@.len(),
                forall|j: int| 0 <= j < i ==> !villager_with_id(self.entities@, j, id),
            decreases self.entities@.len() - i,
        {
            let e = self.entities[i];
            if let Role::Villager { last_ate, .. } = e.role {
                if e.id == id {
                    assert(villager_with_id(self.entities(), i as int, id));
                    assert(villager_view(self.entities()[i as int]) == Villager { id: e.id, key: e.key, last_ate });
                    return Some(Villager { id: e.id, key: e.key, last_ate });
                }
            }
            i = i + 1;
        }
        None
    }

    /// The clock.
    pub fn ticks(&self) -> (r: Ticks)
        ensures
            r == self.now(),
    {
        self.ticks
    }

    /// The entities as they stand.
    pub fn snapshot(&self) -> (r: Vec<Entity>)
        ensures
            r@ == self.entities(),
    {
        let mut r: Vec<Entity> = Vec::new();
        let mut i: usize = 0;
        while i < self.entities.len()
            invariant
                i <= self.entities@.len(),
                r@ == self.entities@.subrange(0, i as int),
            decreases self.entities@.len() - i,
        {
            r.push(self.entities[i]);
            i = i + 1;
            assert(r@ =~= self.entities@.subrange(0, i as int));
        }
        assert(self.entities@.subrange(0, self.entities@.len() as int) =~= self.entities@);
        r
    }

    /// The cell of the live entity with key `k`.
    pub fn coords_of(&self, k: EntityKey) -> (r: Option<Coords>)
        requires
            self.inv(),
        ensures
            r is None ==> !self.has_key(k),
            r matches Some(c) ==> exists|i: int|
                0 <= i < self.entities().len() && #[trigger] self.entities()[i].key == k
                    && self.entities()[i].coords == c,
    {
        match self.find(k) {
            Some(i) => {
                assert(self.entities()[i as int].key == k);
                Some(self.entities[i].coords)
            },
            None => None,
        }
    }

    /// The satiation of the villager with key `k`.
    pub fn satiation_of(&self, k: EntityKey) -> (r: Option<u8>)
        requires
            self.inv(),
        ensures
            r is None ==> !has_villager(self.entities(), k),
            r matches Some(v) ==> exists|i: int|
                #[trigger] is_villager_at(self.entities(), i, k) && self.entities()[i].role->satiation
                    == v,
    {
        match self.find_villager(k) {
            Some(i) => match self.entities[i].role {
                Role::Villager { satiation, .. } => {
                    assert(is_villager_at(self.entities(), i as int, k));
                    Some(satiation)
                },
                _ => None,
            },
            None => None,
        }
    }

    /// The villagers, in order.
    pub fn villagers(&self) -> (r: Vec<Villager>)
        ensures
            r@ == villagers_of(self.entities()),
    {
        let ghost s = self.entities@;
        let mut r: Vec<Villager> = Vec::new();
        let mut i: usize = 0;
        while i < self.entities.len()
            invariant
                s == self.entities@,
                i <= s.len(),
                r@ == villagers_of(s.subrange(0, i as int)),
            decreases s.len() - i,
        {
            assert(s.subrange(0, i + 1).drop_last() =~= s.subrange(0, i as int));
            let e = self.entities[i];
            if let Role::Villager { last_ate, .. } = e.role {
                r.push(Villager { id: e.id, key: e.key, last_ate });
            }
            i = i + 1;
        }
        assert(s.subrange(0, s.len() as int) =~= s);
        r
    }

    /// The farms, in order.
    pub fn farms(&self) -> (r: Vec<Farm>)
        ensures
            r@ == farms_of(self.entities()),
    {
        let ghost s = self.entities@;
        let mut r: Vec<Farm> = Vec::new();
        let mut i: usize = 0;
        while i < self.entities.len()
            invariant
                s == self.entities@,
                i <= s.len(),
                r@ == farms_of(s.subrange(0, i as int)),
            decreases s.len() - i,
        {
            assert(s.subrange(0, i + 1).drop_last() =~= s.subrange(0, i as int));
            let e = self.entities[i];
            if let Role::Farm { last_grew } = e.role {
                r.push(Farm { id: e.id, key: e.key, last_grew });
            }
            i = i + 1;
        }
        assert(s.subrange(0, s.len() as int) =~= s);
        r
    }

    /// The death markers, in order.
    pub fn death_markers(&self) -> (r: Vec<DeathMarker>)
        ensures
            r@ == markers_of(self.entities()),
    {
        let ghost s = self.entities@;
        let mut r: Vec<DeathMarker> = Vec::new();
        let mut i: usize = 0;
        while i < self.entities.len()
            invariant
                s == self.entities@,
                i <= s.len(),
                r@ == markers_of(s.subrange(0, i as int)),
            decreases s.len() - i,
        {
            assert(s.subrange(0, i + 1).drop_last() =~= s.subrange(0, i as int));
            let e = self.entities[i];
            if let Role::DeathMarker = e.role {
                r.push(DeathMarker { id: e.id, key: e.key });
            }
            i = i + 1;
        }
        assert(s.subrange(0, s.len() as int) =~= s);
        r
    }
}

} // verus!
