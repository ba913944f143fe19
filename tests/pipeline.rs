use bevy_twin_stick::meta_states::{stages_enabled, DummyStates, PluginControlState};
use bevy_twin_stick::projectile::{
    kill_projectiles_post_impact, knockback_from_projectiles, projectile_event_dispatcher,
    tick_lifetimes, CollisionEvent, KnockbackEvent, Lifespan, Projectile, ProjectileClashEvent,
    ProjectileImpactBehavior, ProjectileImpactEvent, DEFAULT_LIFESPAN_NANOS,
};
use bevy_twin_stick::world::{EntityRecord, World};
use bevy_twin_stick::TwinStickPlugin;

fn plain(id: u64) -> EntityRecord {
    EntityRecord {
        id,
        parent: None,
        projectile: None,
        has_knockback: false,
        has_velocity: false,
        lifespan: None,
    }
}

fn shot(id: u64, on_impact: ProjectileImpactBehavior) -> EntityRecord {
    EntityRecord {
        projectile: Some(Projectile { on_hit: ProjectileImpactBehavior::Die, on_impact }),
        ..plain(id)
    }
}

fn world_of(recs: &[EntityRecord]) -> World {
    let mut w = World::new();
    for r in recs {
        assert!(w.spawn(*r));
    }
    w
}

fn ids(w: &World) -> Vec<u64> {
    w.records().iter().map(|r| r.id).collect()
}

fn dispatch(cs: Vec<CollisionEvent>, w: &World) -> (Vec<ProjectileImpactEvent>, Vec<ProjectileClashEvent>) {
    let mut impacts = Vec::new();
    let mut clashes = Vec::new();
    projectile_event_dispatcher(&cs, w, &mut impacts, &mut clashes);
    (impacts, clashes)
}

#[test]
fn impact_attributed_regardless_of_order() {
    let w = world_of(&[shot(1, ProjectileImpactBehavior::Die), plain(2)]);
    let expected = vec![ProjectileImpactEvent { projectile: 1, impacted: 2 }];
    let (i1, c1) = dispatch(vec![CollisionEvent::Started(1, 2)], &w);
    let (i2, c2) = dispatch(vec![CollisionEvent::Started(2, 1)], &w);
    assert_eq!(i1, expected);
    assert_eq!(i2, expected);
    assert!(c1.is_empty() && c2.is_empty());
}

#[test]
fn two_projectiles_clash() {
    let w = world_of(&[shot(10, ProjectileImpactBehavior::Die), shot(11, ProjectileImpactBehavior::Bounce)]);
    let (impacts, clashes) = dispatch(vec![CollisionEvent::Started(10, 11)], &w);
    assert_eq!(clashes, vec![ProjectileClashEvent(10, 11)]);
    assert!(impacts.is_empty());
}

#[test]
fn repeated_notifications_are_not_deduplicated() {
    let w = world_of(&[shot(10, ProjectileImpactBehavior::Die), shot(11, ProjectileImpactBehavior::Die)]);
    let (impacts, clashes) =
        dispatch(vec![CollisionEvent::Started(10, 11), CollisionEvent::Started(11, 10)], &w);
    assert_eq!(clashes, vec![ProjectileClashEvent(10, 11), ProjectileClashEvent(11, 10)]);
    assert!(impacts.is_empty());
}

#[test]
fn no_event_without_projectile() {
    let w = world_of(&[plain(1), plain(2), shot(3, ProjectileImpactBehavior::Die)]);
    let (impacts, clashes) =
        dispatch(vec![CollisionEvent::Started(1, 2), CollisionEvent::Stopped(3, 1)], &w);
    assert!(impacts.is_empty());
    assert!(clashes.is_empty());
}

#[test]
fn missing_entity_counts_as_untagged() {
    let w = world_of(&[shot(1, ProjectileImpactBehavior::Die)]);
    let (impacts, clashes) =
        dispatch(vec![CollisionEvent::Started(99, 1), CollisionEvent::Started(98, 97)], &w);
    assert_eq!(impacts, vec![ProjectileImpactEvent { projectile: 1, impacted: 99 }]);
    assert!(clashes.is_empty());
}

#[test]
fn events_append_to_queues() {
    let w = world_of(&[shot(1, ProjectileImpactBehavior::Die), plain(2)]);
    let mut impacts = vec![ProjectileImpactEvent { projectile: 7, impacted: 8 }];
    let mut clashes = Vec::new();
    projectile_event_dispatcher(&vec![CollisionEvent::Started(2, 1)], &w, &mut impacts, &mut clashes);
    assert_eq!(
        impacts,
        vec![
            ProjectileImpactEvent { projectile: 7, impacted: 8 },
            ProjectileImpactEvent { projectile: 1, impacted: 2 }
        ]
    );
}

#[test]
fn knockback_with_velocity_scenario() {
    let p = EntityRecord { has_knockback: true, has_velocity: true, ..shot(1, ProjectileImpactBehavior::Die) };
    let w = world_of(&[p, plain(2)]);
    let (impacts, _) = dispatch(vec![CollisionEvent::Started(1, 2)], &w);
    assert_eq!(impacts, vec![ProjectileImpactEvent { projectile: 1, impacted: 2 }]);
    let mut kbs = Vec::new();
    knockback_from_projectiles(&impacts, &w, &mut kbs);
    assert_eq!(kbs, vec![KnockbackEvent { entity: 2, source: 1, add_velocity: true }]);
}

#[test]
fn knockback_without_velocity() {
    let p = EntityRecord { has_knockback: true, ..shot(1, ProjectileImpactBehavior::Die) };
    let w = world_of(&[p, plain(2)]);
    let mut kbs = Vec::new();
    knockback_from_projectiles(&vec![ProjectileImpactEvent { projectile: 1, impacted: 2 }], &w, &mut kbs);
    assert_eq!(kbs, vec![KnockbackEvent { entity: 2, source: 1, add_velocity: false }]);
}

#[test]
fn no_knockback_component_no_knockback_event() {
    let w = world_of(&[shot(1, ProjectileImpactBehavior::Die), plain(2)]);
    let (impacts, _) = dispatch(vec![CollisionEvent::Started(1, 2)], &w);
    assert_eq!(impacts.len(), 1);
    let mut kbs = Vec::new();
    knockback_from_projectiles(&impacts, &w, &mut kbs);
    assert!(kbs.is_empty());
}

#[test]
fn knockback_skips_vanished_entities() {
    let p = EntityRecord { has_knockback: true, ..shot(1, ProjectileImpactBehavior::Die) };
    let w = world_of(&[p]);
    let mut kbs = Vec::new();
    let evs = vec![
        ProjectileImpactEvent { projectile: 1, impacted: 2 },
        ProjectileImpactEvent { projectile: 5, impacted: 1 },
    ];
    knockback_from_projectiles(&evs, &w, &mut kbs);
    assert!(kbs.is_empty());
}

#[test]
fn die_on_impact_removes_projectile_and_children() {
    let child = EntityRecord { parent: Some(1), ..plain(3) };
    let grandchild = EntityRecord { parent: Some(3), ..plain(4) };
    let mut w = world_of(&[shot(1, ProjectileImpactBehavior::Die), plain(2), child, grandchild]);
    let killed = kill_projectiles_post_impact(&vec![ProjectileImpactEvent { projectile: 1, impacted: 2 }], &mut w);
    assert_eq!(killed, vec![1]);
    assert_eq!(ids(&w), vec![2]);
}

#[test]
fn bounce_on_impact_keeps_projectile() {
    let mut w = world_of(&[shot(1, ProjectileImpactBehavior::Bounce), plain(2)]);
    let killed = kill_projectiles_post_impact(&vec![ProjectileImpactEvent { projectile: 1, impacted: 2 }], &mut w);
    assert!(killed.is_empty());
    assert_eq!(ids(&w), vec![1, 2]);
}

#[test]
fn post_impact_skips_projectile_already_gone() {
    let mut w = world_of(&[shot(1, ProjectileImpactBehavior::Die), plain(2)]);
    let evs = vec![
        ProjectileImpactEvent { projectile: 1, impacted: 2 },
        ProjectileImpactEvent { projectile: 1, impacted: 2 },
    ];
    let killed = kill_projectiles_post_impact(&evs, &mut w);
    assert_eq!(killed, vec![1]);
    assert_eq!(ids(&w), vec![2]);
}

#[test]
fn on_hit_is_not_consulted() {
    let p = EntityRecord {
        projectile: Some(Projectile {
            on_hit: ProjectileImpactBehavior::Die,
            on_impact: ProjectileImpactBehavior::Bounce,
        }),
        ..plain(1)
    };
    let mut w = world_of(&[p, plain(2)]);
    kill_projectiles_post_impact(&vec![ProjectileImpactEvent { projectile: 1, impacted: 2 }], &mut w);
    assert_eq!(ids(&w), vec![1, 2]);
}

#[test]
fn lifespan_finishes_exactly_at_duration() {
    let mut l = Lifespan::default();
    assert_eq!(l.duration_nanos, 400_000_000);
    assert_eq!(DEFAULT_LIFESPAN_NANOS, 400_000_000);
    l.tick(399_999_999);
    assert!(!l.finished());
    l.tick(1);
    assert!(l.finished());
    assert_eq!(l.elapsed_nanos, 400_000_000);
    l.tick(u64::MAX);
    assert!(l.finished());
    assert_eq!(l.elapsed_nanos, 400_000_000);
}

#[test]
fn lifespan_large_tick_saturates() {
    let mut l = Lifespan::new(10);
    l.tick(u64::MAX);
    assert_eq!(l, Lifespan { duration_nanos: 10, elapsed_nanos: 10 });
}

#[test]
fn tick_lifetimes_despawns_expired_with_children() {
    let a = EntityRecord { lifespan: Some(Lifespan::new(100)), ..shot(1, ProjectileImpactBehavior::Die) };
    let b = EntityRecord { lifespan: Some(Lifespan::new(300)), ..shot(2, ProjectileImpactBehavior::Die) };
    let child = EntityRecord { parent: Some(1), ..plain(3) };
    let mut w = world_of(&[a, b, child, plain(4)]);
    let expired = tick_lifetimes(&mut w, 60);
    assert!(expired.is_empty());
    assert_eq!(ids(&w), vec![1, 2, 3, 4]);
    let expired = tick_lifetimes(&mut w, 40);
    assert_eq!(expired, vec![1]);
    assert_eq!(ids(&w), vec![2, 4]);
    assert_eq!(w.get(2).unwrap().lifespan, Some(Lifespan { duration_nanos: 300, elapsed_nanos: 100 }));
    let expired = tick_lifetimes(&mut w, 200);
    assert_eq!(expired, vec![2]);
    assert_eq!(ids(&w), vec![4]);
}

#[test]
fn zero_delta_does_not_expire() {
    let a = EntityRecord { lifespan: Some(Lifespan::new(5)), ..plain(1) };
    let mut w = world_of(&[a]);
    assert!(tick_lifetimes(&mut w, 0).is_empty());
    assert_eq!(ids(&w), vec![1]);
}

#[test]
fn spawn_refuses_duplicate_id() {
    let mut w = world_of(&[plain(1)]);
    assert!(!w.spawn(shot(1, ProjectileImpactBehavior::Die)));
    assert_eq!(w.len(), 1);
    assert_eq!(w.get(1), Some(plain(1)));
    assert_eq!(w.get(2), None);
}

#[test]
fn despawn_recursive_removes_subtree_only() {
    let mut w = world_of(&[
        plain(1),
        EntityRecord { parent: Some(1), ..plain(2) },
        EntityRecord { parent: Some(2), ..plain(3) },
        EntityRecord { parent: Some(9), ..plain(4) },
        plain(5),
    ]);
    let mut sub = w.subtree_ids(1);
    sub.sort();
    sub.dedup();
    assert_eq!(sub, vec![1, 2, 3]);
    w.despawn_recursive(1);
    assert_eq!(ids(&w), vec![4, 5]);
}

#[test]
fn projectile_default_dies() {
    let p = Projectile::default();
    assert_eq!(p.on_hit, ProjectileImpactBehavior::Die);
    assert_eq!(p.on_impact, ProjectileImpactBehavior::Die);
}

#[test]
fn gate_and_plugin_defaults() {
    assert!(stages_enabled(&DummyStates::AlwaysActive));
    assert_eq!(DummyStates::active_state(), DummyStates::AlwaysActive);
    assert!(TwinStickPlugin().use_default_camera);
}

#[test]
fn expiry_takes_grandchildren_even_with_time_left() {
    let root = EntityRecord { lifespan: Some(Lifespan::new(10)), ..plain(1) };
    let child = EntityRecord { parent: Some(1), lifespan: Some(Lifespan::new(1000)), ..plain(2) };
    let grandchild = EntityRecord { parent: Some(2), ..plain(3) };
    let other = EntityRecord { lifespan: Some(Lifespan::new(1000)), ..plain(4) };
    let mut w = world_of(&[grandchild, child, root, other]);
    let expired = tick_lifetimes(&mut w, 10);
    assert_eq!(expired, vec![1]);
    assert_eq!(ids(&w), vec![4]);
    assert_eq!(w.get(4).unwrap().lifespan, Some(Lifespan { duration_nanos: 1000, elapsed_nanos: 10 }));
}

#[test]
fn despawn_all_removes_union_of_subtrees() {
    let mut w = world_of(&[
        plain(1),
        EntityRecord { parent: Some(1), ..plain(2) },
        plain(3),
        EntityRecord { parent: Some(3), ..plain(4) },
        plain(5),
    ]);
    w.despawn_all(&vec![3, 1, 3]);
    assert_eq!(ids(&w), vec![5]);
}
