use vstd::prelude::*;

use crate::meta_states::PluginControlState;
use crate::world::{
    despawned, despawned_all, descends, has_record, in_any_subtree, in_subtree,
    lemma_despawned_all_exact, lemma_survivors_none, projectile_of, record_of, unique_ids, EntityId, EntityRecord, World,
};
use std::marker::PhantomData;

verus! {

/// Default lifespan of a projectile: 400 ms, in nanoseconds.
pub const DEFAULT_LIFESPAN_NANOS: u64 = 400_000_000;

/// A one-shot countdown owned by a projectile. Times are in nanoseconds.
/// Once `elapsed_nanos` reaches `duration_nanos` the countdown has finished
/// and stays finished.
#[derive(Clone, Copy, Debug, PartialEq, Eq, Structural)]
pub struct Lifespan {
    pub duration_nanos: u64,
    pub elapsed_nanos: u64,
}

/// The countdown after one tick of `delta` nanoseconds: a finished countdown
/// is left alone, any other advances and stops at its duration.
pub open spec fn ticked(l: Lifespan, delta: u64) -> Lifespan {
    if l.elapsed_nanos >= l.duration_nanos {
        l
    } else if l.elapsed_nanos + delta >= l.duration_nanos {
        Lifespan { elapsed_nanos: l.duration_nanos, ..l }
    } else {
        Lifespan { elapsed_nanos: (l.elapsed_nanos + delta) as u64, ..l }
    }
}

impl Lifespan {
    pub open spec fn is_finished(&self) -> bool {
        self.elapsed_nanos >= self.duration_nanos
    }

    /// A fresh countdown of the given duration.
    pub fn new(duration_nanos: u64) -> (r: Lifespan)
        ensures
            r.duration_nanos == duration_nanos,
            r.elapsed_nanos == 0,
    {
        Lifespan { duration_nanos, elapsed_nanos: 0 }
    }

    /// A fresh countdown of the default duration.
    pub fn default() -> (r: Lifespan)
        ensures
            r.duration_nanos == DEFAULT_LIFESPAN_NANOS,
            r.elapsed_nanos == 0,
    {
        Lifespan::new(DEFAULT_LIFESPAN_NANOS)
    }

    /// Advances the countdown by `delta` nanoseconds.
    pub fn tick(&mut self, delta: u64)
        ensures
            *final(self) == ticked(*old(self), delta),
    {
        if self.elapsed_nanos < self.duration_nanos {
            if delta >= self.duration_nanos - self.elapsed_nanos {
                self.elapsed_nanos = self.duration_nanos;
            } else {
                self.elapsed_nanos = self.elapsed_nanos + delta;
            }
        }
    }

    /// Whether the countdown has reached its duration.
    pub fn finished(&self) -> (r: bool)
        ensures
            r == self.is_finished(),
    {
        self.elapsed_nanos >= self.duration_nanos
    }
}

/// What happens to a projectile in a given collision circumstance.
#[derive(Clone, Copy, Debug, PartialEq, Eq, Structural, PartialOrd, Ord, Hash)]
pub enum ProjectileImpactBehavior {
    Die,
    Bounce,
}

/// The projectile tag. `on_impact` decides whether a projectile is removed
/// after it hits a non-projectile; `on_hit` is carried but not consulted.
#[derive(Clone, Copy, Debug, PartialEq, Eq, Structural)]
pub struct Projectile {
    pub on_hit: ProjectileImpactBehavior,
    pub on_impact: ProjectileImpactBehavior,
}

impl Projectile {
    /// A projectile that dies in both circumstances.
    pub fn default() -> (r: Projectile)
        ensures
            r.on_hit == ProjectileImpactBehavior::Die,
            r.on_impact == ProjectileImpactBehavior::Die,
    {
        Projectile { on_hit: ProjectileImpactBehavior::Die, on_impact: ProjectileImpactBehavior::Die }
    }
}

/// Projectile systems, gated by the control state `T`.
pub struct ProjectilePlugin<T: PluginControlState> {
    pub _z: PhantomData<T>,
}

impl<T: PluginControlState> ProjectilePlugin<T> {
    pub fn default() -> (r: Self) {
        ProjectilePlugin { _z: PhantomData }
    }
}

/// A raw collision notification from the physics engine.
#[derive(Clone, Copy, Debug, PartialEq, Eq, Structural)]
pub enum CollisionEvent {
    Started(EntityId, EntityId),
    Stopped(EntityId, EntityId),
}

/// A projectile hit a non-projectile.
#[derive(Clone, Copy, Debug, PartialEq, Eq, Structural)]
pub struct ProjectileImpactEvent {
    pub projectile: EntityId,
    pub impacted: EntityId,
}

/// Two projectiles collided.
#[derive(Clone, Copy, Debug, PartialEq, Eq, Structural)]
pub struct ProjectileClashEvent(pub EntityId, pub EntityId);

/// A knockback to deliver to `entity`, derived from the projectile `source`.
/// Its direction is the position of `source` minus that of `entity`, plus the
/// velocity of `source` when `add_velocity` holds; its force is the knockback
/// magnitude of `source`.
#[derive(Clone, Copy, Debug, PartialEq, Eq, Structural)]
pub struct KnockbackEvent {
    pub entity: EntityId,
    pub source: EntityId,
    pub add_velocity: bool,
}

/// The impact event that one notification gives, if any.
pub open spec fn impact_of(w: Seq<EntityRecord>, c: CollisionEvent) -> Option<ProjectileImpactEvent> {
    match c {
        CollisionEvent::Started(a, b) => {
            if projectile_of(w, a) is Some && projectile_of(w, b) is None {
                Some(ProjectileImpactEvent { projectile: a, impacted: b })
            } else if projectile_of(w, a) is None && projectile_of(w, b) is Some {
                Some(ProjectileImpactEvent { projectile: b, impacted: a })
            } else {
                None
            }
        },
        CollisionEvent::Stopped(_, _) => None,
    }
}

/// The clash event that one notification gives, if any.
pub open spec fn clash_of(w: Seq<EntityRecord>, c: CollisionEvent) -> Option<ProjectileClashEvent> {
    match c {
        CollisionEvent::Started(a, b) => {
            if projectile_of(w, a) is Some && projectile_of(w, b) is Some {
                Some(ProjectileClashEvent(a, b))
            } else {
                None
            }
        },
        CollisionEvent::Stopped(_, _) => None,
    }
}

/// An optional value as a sequence of at most one element.
pub open spec fn opt_seq<A>(o: Option<A>) -> Seq<A> {
    match o {
        Some(a) => seq![a],
        None => Seq::empty(),
    }
}

/// The impact events of a run of notifications, in order.
pub open spec fn impacts_of(w: Seq<EntityRecord>, cs: Seq<CollisionEvent>) -> Seq<ProjectileImpactEvent>
    decreases cs.len(),
{
    if cs.len() == 0 {
        Seq::empty()
    } else {
        impacts_of(w, cs.drop_last()) + opt_seq(impact_of(w, cs.last()))
    }
}

/// The clash events of a run of notifications, in order.
pub open spec fn clashes_of(w: Seq<EntityRecord>, cs: Seq<CollisionEvent>) -> Seq<ProjectileClashEvent>
    decreases cs.len(),
{
    if cs.len() == 0 {
        Seq::empty()
    } else {
        clashes_of(w, cs.drop_last()) + opt_seq(clash_of(w, cs.last()))
    }
}

/// The knockback that one impact gives: only a projectile that carries a
/// knockback pushes, and only a target that still exists is pushed.
pub open spec fn knockback_of(w: Seq<EntityRecord>, ev: ProjectileImpactEvent) -> Option<KnockbackEvent> {
    match record_of(w, ev.projectile) {
        Some(r) => {
            if r.has_knockback && has_record(w, ev.impacted) {
                Some(KnockbackEvent { entity: ev.impacted, source: ev.projectile, add_velocity: r.has_velocity })
            } else {
                None
            }
        },
        None => None,
    }
}

pub open spec fn knockbacks_of(w: Seq<EntityRecord>, evs: Seq<ProjectileImpactEvent>) -> Seq<KnockbackEvent>
    decreases evs.len(),
{
    if evs.len() == 0 {
        Seq::empty()
    } else {
        knockbacks_of(w, evs.drop_last()) + opt_seq(knockback_of(w, evs.last()))
    }
}

/// Whether the projectile `p` is still tagged and dies on impact.
pub open spec fn dies_on_impact(w: Seq<EntityRecord>, p: EntityId) -> bool {
    match projectile_of(w, p) {
        Some(pr) => pr.on_impact == ProjectileImpactBehavior::Die,
        None => false,
    }
}

/// The table after handling each impact in turn: a projectile that is still
/// there and dies on impact is removed with its children.
pub open spec fn after_impacts(w: Seq<EntityRecord>, evs: Seq<ProjectileImpactEvent>) -> Seq<EntityRecord>
    decreases evs.len(),
{
    if evs.len() == 0 {
        w
    } else {
        let prev = after_impacts(w, evs.drop_last());
        if dies_on_impact(prev, evs.last().projectile) {
            despawned(prev, evs.last().projectile)
        } else {
            prev
        }
    }
}

/// The projectiles that the handling of `evs` removed, in order.
pub open spec fn killed_by_impacts(w: Seq<EntityRecord>, evs: Seq<ProjectileImpactEvent>) -> Seq<EntityId>
    decreases evs.len(),
{
    if evs.len() == 0 {
        Seq::empty()
    } else {
        let prev = after_impacts(w, evs.drop_last());
        killed_by_impacts(w, evs.drop_last()) + if dies_on_impact(prev, evs.last().projectile) {
            seq![evs.last().projectile]
        } else {
            Seq::empty()
        }
    }
}

/// A record after one tick of its lifespan, if it has one.
pub open spec fn tick_record(r: EntityRecord, delta: u64) -> EntityRecord {
    match r.lifespan {
        Some(l) => EntityRecord { lifespan: Some(ticked(l, delta)), ..r },
        None => r,
    }
}

pub open spec fn ticked_records(w: Seq<EntityRecord>, delta: u64) -> Seq<EntityRecord> {
    Seq::new(w.len(), |i: int| tick_record(w[i], delta))
}

/// The ids of the records whose lifespan has finished, in order.
pub open spec fn expired_ids(w: Seq<EntityRecord>) -> Seq<EntityId>
    decreases w.len(),
{
    if w.len() == 0 {
        Seq::empty()
    } else {
        expired_ids(w.drop_last()) + match w.last().lifespan {
            Some(l) => if l.is_finished() {
                seq![w.last().id]
            } else {
                Seq::empty()
            },
            None => Seq::empty(),
        }
    }
}

/// The table after one tick of `delta` nanoseconds.
pub open spec fn after_tick(w: Seq<EntityRecord>, delta: u64) -> Seq<EntityRecord> {
    despawned_all(ticked_records(w, delta), expired_ids(ticked_records(w, delta)))
}

/// The sum of a run of tick lengths.
pub open spec fn total(ds: Seq<u64>) -> int
    decreases ds.len(),
{
    if ds.len() == 0 {
        0
    } else {
        total(ds.drop_last()) + ds.last()
    }
}

/// A lifespan after a run of ticks.
pub open spec fn ticked_many(l: Lifespan, ds: Seq<u64>) -> Lifespan
    decreases ds.len(),
{
    if ds.len() == 0 {
        l
    } else {
        ticked(ticked_many(l, ds.drop_last()), ds.last())
    }
}

/// A fresh lifespan of duration D has finished after a run of ticks exactly
/// when their lengths add up to at least D: its elapsed time is their total,
/// capped at D.
pub proof fn lemma_lifespan_expiry(l: Lifespan, ds: Seq<u64>)
    requires
        l.elapsed_nanos == 0,
    ensures
        ticked_many(l, ds).duration_nanos == l.duration_nanos,
        ticked_many(l, ds).elapsed_nanos == if total(ds) >= l.duration_nanos {
            l.duration_nanos as int
        } else {
            total(ds)
        },
        ticked_many(l, ds).is_finished() <==> total(ds) >= l.duration_nanos,
    decreases ds.len(),
{
    if ds.len() > 0 {
        lemma_lifespan_expiry(l, ds.drop_last());
        lemma_total_nonneg(ds.drop_last());
    }
}

proof fn lemma_total_nonneg(ds: Seq<u64>)
    ensures
        total(ds) >= 0,
    decreases ds.len(),
{
    if ds.len() > 0 {
        lemma_total_nonneg(ds.drop_last());
    }
}

/// Entity `x` has a lifespan that finishes in a tick of `delta` nanoseconds.
pub open spec fn expires_in(w: Seq<EntityRecord>, delta: u64, x: EntityId) -> bool {
    exists|k: int|
        0 <= k < w.len() && #[trigger] w[k].id == x && (w[k].lifespan matches Some(l) && ticked(
            l,
            delta,
        ).is_finished())
}

/// The expired ids are exactly the ids of the records whose lifespan has finished.
proof fn lemma_expired_ids_exact(t: Seq<EntityRecord>)
    ensures
        forall|x: EntityId|
            expired_ids(t).contains(x) <==> exists|k: int|
                0 <= k < t.len() && #[trigger] t[k].id == x && (t[k].lifespan matches Some(l)
                    && l.is_finished()),
    decreases t.len(),
{
    if t.len() > 0 {
        let rest = t.drop_last();
        lemma_expired_ids_exact(rest);
        let ex = expired_ids(t);
        let er = expired_ids(rest);
        assert forall|x: EntityId|
            ex.contains(x) <==> exists|k: int|
                0 <= k < t.len() && #[trigger] t[k].id == x && (t[k].lifespan matches Some(l)
                    && l.is_finished()) by {
            if ex.contains(x) {
                let q = choose|q: int| 0 <= q < ex.len() && ex[q] == x;
                if q < er.len() {
                    assert(er[q] == x);
                    assert(er.contains(x));
                    let k = choose|k: int|
                        0 <= k < rest.len() && #[trigger] rest[k].id == x && (rest[k].lifespan matches Some(
                            l,
                        ) && l.is_finished());
                    assert(t[k] == rest[k]);
                } else {
                    assert(t[t.len() - 1] == t.last());
                }
            }
            if exists|k: int|
                0 <= k < t.len() && #[trigger] t[k].id == x && (t[k].lifespan matches Some(l)
                    && l.is_finished()) {
                let k = choose|k: int|
                    0 <= k < t.len() && #[trigger] t[k].id == x && (t[k].lifespan matches Some(l)
                        && l.is_finished());
                if k < t.len() - 1 {
                    assert(rest[k] == t[k]);
                    assert(rest[k].id == x);
                    assert(er.contains(x));
                    let q = choose|q: int| 0 <= q < er.len() && er[q] == x;
                    assert(ex[q] == x);
                } else {
                    assert(ex[er.len() as int] == x);
                }
            }
        }
    }
}

/// Tables that agree on ids and parents have the same descent relation.
proof fn lemma_descends_same_links(w: Seq<EntityRecord>, t: Seq<EntityRecord>, x: EntityId, e: EntityId, fuel: nat)
    requires
        w.len() == t.len(),
        forall|i: int|
            0 <= i < w.len() ==> (#[trigger] w[i]).id == t[i].id && w[i].parent == t[i].parent,
    ensures
        descends(w, x, e, fuel) == descends(t, x, e, fuel),
    decreases fuel,
{
    if fuel > 0 {
        assert forall|p: EntityId| #[trigger] descends(w, p, e, (fuel - 1) as nat) == descends(t, p, e, (fuel - 1) as nat) by {
            lemma_descends_same_links(w, t, p, e, (fuel - 1) as nat);
        }
        if descends(w, x, e, fuel) && x != e {
            let i = choose|i: int| 0 <= i < w.len() && #[trigger] w[i].id == x && match w[i].parent {
                Some(p) => descends(w, p, e, (fuel - 1) as nat),
                None => false,
            };
            match w[i].parent {
                Some(p) => {
                    assert(descends(t, p, e, (fuel - 1) as nat));
                    assert(t[i].id == x && t[i].parent == Some(p));
                },
                None => {},
            }
            assert(descends(t, x, e, fuel));
        }
        if descends(t, x, e, fuel) && x != e {
            let i = choose|i: int| 0 <= i < t.len() && #[trigger] t[i].id == x && match t[i].parent {
                Some(p) => descends(t, p, e, (fuel - 1) as nat),
                None => false,
            };
            match t[i].parent {
                Some(p) => {
                    assert(descends(w, p, e, (fuel - 1) as nat));
                    assert(w[i].id == x && w[i].parent == Some(p));
                },
                None => {},
            }
            assert(descends(w, x, e, fuel));
        }
    }
}

/// A tick of `delta` nanoseconds removes exactly the entities that lie in the
/// subtree of an entity whose lifespan finishes in that tick: each such
/// entity goes with its children, and every other entity stays.
pub proof fn lemma_tick_despawns_exactly(w: Seq<EntityRecord>, delta: u64)
    requires
        unique_ids(w),
    ensures
        forall|y: EntityId|
            has_record(#[trigger] after_tick(w, delta), y) <==> (has_record(w, y) && !exists|x: EntityId|
                expires_in(w, delta, x) && #[trigger] in_subtree(w, y, x)),
{
    let t = ticked_records(w, delta);
    let ex = expired_ids(t);
    assert forall|i: int| 0 <= i < w.len() implies #[trigger] w[i].id == t[i].id && w[i].parent
        == t[i].parent by {
        assert(t[i] == tick_record(w[i], delta));
    }
    assert(unique_ids(t)) by {
        assert forall|i: int, j: int|
            0 <= i < t.len() && 0 <= j < t.len() && #[trigger] t[i].id == #[trigger] t[j].id implies i == j by {
            assert(w[i].id == t[i].id && w[j].id == t[j].id);
        }
    }
    lemma_expired_ids_exact(t);
    lemma_despawned_all_exact(t, ex);
    assert forall|y: EntityId|
        has_record(#[trigger] after_tick(w, delta), y) <==> (has_record(w, y) && !exists|x: EntityId|
            expires_in(w, delta, x) && #[trigger] in_subtree(w, y, x)) by {
        assert(has_record(w, y) == has_record(t, y)) by {
            if has_record(w, y) {
                let i = choose|i: int| 0 <= i < w.len() && #[trigger] w[i].id == y;
                assert(t[i].id == y);
            }
            if has_record(t, y) {
                let i = choose|i: int| 0 <= i < t.len() && #[trigger] t[i].id == y;
                assert(w[i].id == y);
            }
        }
        let by_expiry = exists|x: EntityId| expires_in(w, delta, x) && #[trigger] in_subtree(w, y, x);
        if by_expiry {
            let x = choose|x: EntityId| expires_in(w, delta, x) && #[trigger] in_subtree(w, y, x);
            let k = choose|k: int|
                0 <= k < w.len() && #[trigger] w[k].id == x && (w[k].lifespan matches Some(l) && ticked(
                    l,
                    delta,
                ).is_finished());
            assert(t[k] == tick_record(w[k], delta));
            assert(t[k].id == x);
            assert(ex.contains(x));
            let q = choose|q: int| 0 <= q < ex.len() && ex[q] == x;
            lemma_descends_same_links(w, t, y, x, w.len() as nat);
            assert(in_subtree(t, y, ex[q]));
            assert(in_any_subtree(t, y, ex));
        }
        if in_any_subtree(t, y, ex) {
            let q = choose|q: int| 0 <= q < ex.len() && in_subtree(t, y, #[trigger] ex[q]);
            let x = ex[q];
            assert(ex.contains(x));
            let k = choose|k: int|
                0 <= k < t.len() && #[trigger] t[k].id == x && (t[k].lifespan matches Some(l)
                    && l.is_finished());
            assert(t[k] == tick_record(w[k], delta));
            assert(w[k].id == x);
            assert(expires_in(w, delta, x));
            lemma_descends_same_links(w, t, y, x, w.len() as nat);
            assert(in_subtree(w, y, x));
        }
    }
}

/// A tick in which no lifespan reaches its duration removes nothing: the
/// table only has its lifespans advanced.
pub proof fn lemma_nothing_expires(w: Seq<EntityRecord>, delta: u64)
    requires
        forall|k: int|
            0 <= k < w.len() ==> match #[trigger] w[k].lifespan {
                Some(l) => !ticked(l, delta).is_finished(),
                None => true,
            },
    ensures
        after_tick(w, delta) == ticked_records(w, delta),
{
    let t = ticked_records(w, delta);
    assert forall|k: int| 0 <= k < t.len() implies match #[trigger] t[k].lifespan {
        Some(l) => !l.is_finished(),
        None => true,
    } by {
        assert(t[k] == tick_record(w[k], delta));
        assert(match w[k].lifespan {
            Some(l) => !ticked(l, delta).is_finished(),
            None => true,
        });
    }
    lemma_no_expired_ids(t);
    assert(expired_ids(t) =~= Seq::<EntityId>::empty());
    lemma_survivors_none(t, t);
}

proof fn lemma_no_expired_ids(t: Seq<EntityRecord>)
    requires
        forall|k: int|
            0 <= k < t.len() ==> match #[trigger] t[k].lifespan {
                Some(l) => !l.is_finished(),
                None => true,
            },
    ensures
        expired_ids(t).len() == 0,
    decreases t.len(),
{
    if t.len() > 0 {
        let rest = t.drop_last();
        assert forall|k: int| 0 <= k < rest.len() implies match #[trigger] rest[k].lifespan {
            Some(l) => !l.is_finished(),
            None => true,
        } by {
            assert(rest[k] == t[k]);
        }
        lemma_no_expired_ids(rest);
        assert(t.last() == t[t.len() - 1]);
    }
}

/// A start between a projectile and a non-projectile gives exactly one impact
/// event, naming the projectile and the other entity whichever of them the
/// notification names first, and no clash event.
pub proof fn lemma_impact_attribution(w: Seq<EntityRecord>, p: EntityId, t: EntityId)
    requires
        projectile_of(w, p) is Some,
        projectile_of(w, t) is None,
    ensures
        impacts_of(w, seq![CollisionEvent::Started(p, t)]) == seq![
            ProjectileImpactEvent { projectile: p, impacted: t },
        ],
        impacts_of(w, seq![CollisionEvent::Started(t, p)]) == seq![
            ProjectileImpactEvent { projectile: p, impacted: t },
        ],
        clashes_of(w, seq![CollisionEvent::Started(p, t)]).len() == 0,
        clashes_of(w, seq![CollisionEvent::Started(t, p)]).len() == 0,
{
    let a = seq![CollisionEvent::Started(p, t)];
    let b = seq![CollisionEvent::Started(t, p)];
    assert(a.drop_last() =~= Seq::<CollisionEvent>::empty());
    assert(b.drop_last() =~= Seq::<CollisionEvent>::empty());
    assert(a.last() == CollisionEvent::Started(p, t));
    assert(b.last() == CollisionEvent::Started(t, p));
    assert(impacts_of(w, a.drop_last()) =~= Seq::<ProjectileImpactEvent>::empty());
    assert(impacts_of(w, b.drop_last()) =~= Seq::<ProjectileImpactEvent>::empty());
    assert(clashes_of(w, a.drop_last()) =~= Seq::<ProjectileClashEvent>::empty());
    assert(clashes_of(w, b.drop_last()) =~= Seq::<ProjectileClashEvent>::empty());
    assert(impacts_of(w, a) =~= seq![ProjectileImpactEvent { projectile: p, impacted: t }]);
    assert(impacts_of(w, b) =~= seq![ProjectileImpactEvent { projectile: p, impacted: t }]);
    assert(clashes_of(w, a) =~= Seq::<ProjectileClashEvent>::empty());
    assert(clashes_of(w, b) =~= Seq::<ProjectileClashEvent>::empty());
}

/// Each start between two projectiles gives one clash event naming the two
/// entities as reported, with no deduplication, and no impact event.
pub proof fn lemma_clash_per_notification(w: Seq<EntityRecord>, cs: Seq<CollisionEvent>)
    requires
        forall|i: int|
            0 <= i < cs.len() ==> match #[trigger] cs[i] {
                CollisionEvent::Started(a, b) => projectile_of(w, a) is Some && projectile_of(
                    w,
                    b,
                ) is Some,
                CollisionEvent::Stopped(_, _) => false,
            },
    ensures
        impacts_of(w, cs).len() == 0,
        clashes_of(w, cs).len() == cs.len(),
        forall|i: int|
            0 <= i < cs.len() ==> cs[i] == CollisionEvent::Started(
                #[trigger] clashes_of(w, cs)[i].0,
                clashes_of(w, cs)[i].1,
            ),
    decreases cs.len(),
{
    if cs.len() > 0 {
        let rest = cs.drop_last();
        assert forall|i: int| 0 <= i < rest.len() implies match #[trigger] rest[i] {
            CollisionEvent::Started(a, b) => projectile_of(w, a) is Some && projectile_of(w, b) is Some,
            CollisionEvent::Stopped(_, _) => false,
        } by {
            assert(rest[i] == cs[i]);
        }
        lemma_clash_per_notification(w, rest);
        assert(cs.last() == cs[cs.len() - 1]);
        let c = clashes_of(w, cs);
        assert forall|i: int| 0 <= i < cs.len() implies cs[i] == CollisionEvent::Started(
            #[trigger] c[i].0,
            c[i].1,
        ) by {
            if i < rest.len() {
                assert(rest[i] == cs[i]);
                assert(c[i] == clashes_of(w, rest)[i]);
            }
        }
    }
}

/// A run of notifications none of which is a start involving a projectile
/// gives no event at all.
pub proof fn lemma_no_projectile_no_event(w: Seq<EntityRecord>, cs: Seq<CollisionEvent>)
    requires
        forall|i: int|
            0 <= i < cs.len() ==> match #[trigger] cs[i] {
                CollisionEvent::Started(a, b) => projectile_of(w, a) is None && projectile_of(
                    w,
                    b,
                ) is None,
                CollisionEvent::Stopped(_, _) => true,
            },
    ensures
        impacts_of(w, cs).len() == 0,
        clashes_of(w, cs).len() == 0,
    decreases cs.len(),
{
    if cs.len() > 0 {
        let rest = cs.drop_last();
        assert forall|i: int| 0 <= i < rest.len() implies match #[trigger] rest[i] {
            CollisionEvent::Started(a, b) => projectile_of(w, a) is None && projectile_of(w, b) is None,
            CollisionEvent::Stopped(_, _) => true,
        } by {
            assert(rest[i] == cs[i]);
        }
        lemma_no_projectile_no_event(w, rest);
        assert(cs.last() == cs[cs.len() - 1]);
    }
}

/// When a projectile hits a non-projectile and the impact is dispatched, the
/// projectile (with its children) is removed if it dies on impact, and the
/// table is left as it was if it bounces.
pub proof fn lemma_post_impact_policy(w: Seq<EntityRecord>, p: EntityId, t: EntityId)
    requires
        unique_ids(w),
        projectile_of(w, p) is Some,
        projectile_of(w, t) is None,
    ensures
        ({
            let after = after_impacts(w, impacts_of(w, seq![CollisionEvent::Started(p, t)]));
            &&& projectile_of(w, p).unwrap().on_impact == ProjectileImpactBehavior::Die ==> forall|
                y: EntityId,
            | in_subtree(w, y, p) ==> !has_record(after, y)
            &&& projectile_of(w, p).unwrap().on_impact == ProjectileImpactBehavior::Bounce
                ==> after == w
        }),
{
    lemma_impact_attribution(w, p, t);
    let evs = seq![ProjectileImpactEvent { projectile: p, impacted: t }];
    assert(evs.drop_last() =~= Seq::<ProjectileImpactEvent>::empty());
    assert(evs.last() == ProjectileImpactEvent { projectile: p, impacted: t });
    assert(after_impacts(w, evs.drop_last()) == w);
    lemma_despawned_all_exact(w, seq![p]);
    assert forall|y: EntityId| in_subtree(w, y, p) implies in_any_subtree(w, y, seq![p]) by {
        assert(seq![p][0] == p);
    }
}

/// Impacts whose projectile carries no knockback give no knockback event; the
/// impacts themselves are still reported by the classifier.
pub proof fn lemma_no_knockback_no_event(w: Seq<EntityRecord>, evs: Seq<ProjectileImpactEvent>)
    requires
        forall|i: int|
            0 <= i < evs.len() ==> match record_of(w, #[trigger] evs[i].projectile) {
                Some(r) => !r.has_knockback,
                None => true,
            },
    ensures
        knockbacks_of(w, evs).len() == 0,
    decreases evs.len(),
{
    if evs.len() > 0 {
        let rest = evs.drop_last();
        assert forall|i: int| 0 <= i < rest.len() implies match record_of(w, #[trigger] rest[i].projectile) {
            Some(r) => !r.has_knockback,
            None => true,
        } by {
            assert(rest[i] == evs[i]);
        }
        lemma_no_knockback_no_event(w, rest);
        assert(evs.last() == evs[evs.len() - 1]);
    }
}

/// Whether `e` carries the projectile tag in `world`; a missing entity does not.
pub fn has_projectile(world: &World, e: EntityId) -> (r: bool)
    requires
        world.wf(),
    ensures
        r == (projectile_of(world@, e) is Some),
{
    match world.get(e) {
        Some(rec) => rec.projectile.is_some(),
        None => false,
    }
}

/// Classifies collision notifications: a start between a projectile and a
/// non-projectile gives an impact event naming the projectile, a start
/// between two projectiles gives a clash event, anything else gives nothing.
/// The events are appended to `impacts` and `clashes`.
pub fn projectile_event_dispatcher(
    collisions: &Vec<CollisionEvent>,
    world: &World,
    impacts: &mut Vec<ProjectileImpactEvent>,
    clashes: &mut Vec<ProjectileClashEvent>,
)
    requires
        world.wf(),
    ensures
        final(impacts)@ == old(impacts)@ + impacts_of(world@, collisions@),
        final(clashes)@ == old(clashes)@ + clashes_of(world@, collisions@),
{
    let mut i: usize = 0;
    while i < collisions.len()
        invariant
            0 <= i <= collisions@.len(),
            world.wf(),
            impacts@ == old(impacts)@ + impacts_of(world@, collisions@.subrange(0, i as int)),
            clashes@ == old(clashes)@ + clashes_of(world@, collisions@.subrange(0, i as int)),
        decreases collisions@.len() - i,
    {
        let ghost cs = collisions@.subrange(0, i + 1);
        assert(cs.drop_last() =~= collisions@.subrange(0, i as int));
        assert(cs.last() == collisions@[i as int]);
        let ghost imp0 = impacts@;
        let ghost cl0 = clashes@;
        match collisions[i] {
            CollisionEvent::Started(e1, e2) => {
                let p1 = has_projectile(world, e1);
                let p2 = has_projectile(world, e2);
                if p1 && p2 {
                    clashes.push(ProjectileClashEvent(e1, e2));
                } else if p1 {
                    impacts.push(ProjectileImpactEvent { projectile: e1, impacted: e2 });
                } else if p2 {
                    impacts.push(ProjectileImpactEvent { projectile: e2, impacted: e1 });
                }
            },
            CollisionEvent::Stopped(_, _) => {},
        }
        assert(impacts@ =~= imp0 + opt_seq(impact_of(world@, cs.last())));
        assert(clashes@ =~= cl0 + opt_seq(clash_of(world@, cs.last())));
        i = i + 1;
    }
    assert(collisions@.subrange(0, collisions@.len() as int) =~= collisions@);
}

/// Derives a knockback from each impact whose projectile carries a knockback
/// and whose target still exists; appends them to `knockbacks`.
pub fn knockback_from_projectiles(
    impacts: &Vec<ProjectileImpactEvent>,
    world: &World,
    knockbacks: &mut Vec<KnockbackEvent>,
)
    requires
        world.wf(),
    ensures
        final(knockbacks)@ == old(knockbacks)@ + knockbacks_of(world@, impacts@),
{
    let mut i: usize = 0;
    while i < impacts.len()
        invariant
            0 <= i <= impacts@.len(),
            world.wf(),
            knockbacks@ == old(knockbacks)@ + knockbacks_of(world@, impacts@.subrange(0, i as int)),
        decreases impacts@.len() - i,
    {
        let ghost evs = impacts@.subrange(0, i + 1);
        assert(evs.drop_last() =~= impacts@.subrange(0, i as int));
        assert(evs.last() == impacts@[i as int]);
        let ghost k0 = knockbacks@;
        let ev = impacts[i];
        match world.get(ev.projectile) {
            Some(rec) => {
                if rec.has_knockback {
                    match world.index_of(ev.impacted) {
                        Some(_) => {
                            knockbacks.push(
                                KnockbackEvent {
                                    entity: ev.impacted,
                                    source: ev.projectile,
                                    add_velocity: rec.has_velocity,
                                },
                            );
                        },
                        None => {},
                    }
                }
            },
            None => {},
        }
        assert(knockbacks@ =~= k0 + opt_seq(knockback_of(world@, evs.last())));
        i = i + 1;
    }
    assert(impacts@.subrange(0, impacts@.len() as int) =~= impacts@);
}

/// After impacts are dispatched, removes (with its children) each impacting
/// projectile that still carries its tag and dies on impact. Returns the
/// projectiles removed, in order.
pub fn kill_projectiles_post_impact(impacts: &Vec<ProjectileImpactEvent>, world: &mut World) -> (r: Vec<
    EntityId,
>)
    requires
        old(world).wf(),
    ensures
        final(world).wf(),
        final(world)@ == after_impacts(old(world)@, impacts@),
        r@ == killed_by_impacts(old(world)@, impacts@),
{
    let mut killed: Vec<EntityId> = Vec::new();
    let mut i: usize = 0;
    while i < impacts.len()
        invariant
            0 <= i <= impacts@.len(),
            world.wf(),
            world@ == after_impacts(old(world)@, impacts@.subrange(0, i as int)),
            killed@ == killed_by_impacts(old(world)@, impacts@.subrange(0, i as int)),
        decreases impacts@.len() - i,
    {
        let ghost evs = impacts@.subrange(0, i + 1);
        assert(evs.drop_last() =~= impacts@.subrange(0, i as int));
        assert(evs.last() == impacts@[i as int]);
        let ghost k0 = killed@;
        let p = impacts[i].projectile;
        let dies = match world.get(p) {
            Some(rec) => match rec.projectile {
                Some(pr) => match pr.on_impact {
                    ProjectileImpactBehavior::Die => true,
                    ProjectileImpactBehavior::Bounce => false,
                },
                None => false,
            },
            None => false,
        };
        if dies {
            world.despawn_recursive(p);
            killed.push(p);
        }
        assert(killed@ =~= killed_by_impacts(old(world)@, evs));
        i = i + 1;
    }
    assert(impacts@.subrange(0, impacts@.len() as int) =~= impacts@);
    killed
}

/// Advances every lifespan by `delta` nanoseconds, then removes each entity
/// whose lifespan has finished, together with its children. Returns the
/// entities whose lifespan finished, in order.
pub fn tick_lifetimes(world: &mut World, delta: u64) -> (r: Vec<EntityId>)
    requires
        old(world).wf(),
    ensures
        final(world).wf(),
        r@ == expired_ids(ticked_records(old(world)@, delta)),
        final(world)@ == after_tick(old(world)@, delta),
{
    let ghost w0 = world@;
    let n = world.len();
    let mut expired: Vec<EntityId> = Vec::new();
    let mut i: usize = 0;
    while i < n
        invariant
            0 <= i <= n,
            n == w0.len(),
            world.wf(),
            world@.len() == n,
            forall|j: int| 0 <= j < i ==> world@[j] == tick_record(w0[j], delta),
            forall|j: int| i <= j < n ==> world@[j] == w0[j],
            expired@ == expired_ids(ticked_records(w0, delta).subrange(0, i as int)),
        decreases n - i,
    {
        let ghost t = ticked_records(w0, delta).subrange(0, i + 1);
        assert(t.drop_last() =~= ticked_records(w0, delta).subrange(0, i as int));
        assert(t.last() == tick_record(w0[i as int], delta));
        let rec = world.records()[i];
        match rec.lifespan {
            Some(l) => {
                let mut l2 = l;
                l2.tick(delta);
                world.set_lifespan_at(i, Some(l2));
                if l2.finished() {
                    expired.push(rec.id);
                }
            },
            None => {},
        }
        assert(expired@ =~= expired_ids(t));
        i = i + 1;
    }
    assert(ticked_records(w0, delta).subrange(0, n as int) =~= ticked_records(w0, delta));
    assert(world@ =~= ticked_records(w0, delta));
    world.despawn_all(&expired);
    expired
}

} // verus!
