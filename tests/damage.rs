use bevyruman::damage::{apply_hit, resolve_projectile, Contact, DamageSource, Health};
use bevyruman::lifecycle::{should_despawn, EnemyCount};

fn hp(v: i32) -> Health {
    Health { hp: v, max: 10 }
}

#[test]
fn killing_hit_leaves_damage_to_pierce() {
    let mut src = DamageSource { damage: 5 };
    let mut target = hp(3);
    apply_hit(&mut src, &mut target);
    assert_eq!(target.hp, -2);
    assert_eq!(src.damage, 2);
}

#[test]
fn surviving_target_consumes_projectile() {
    let mut src = DamageSource { damage: 2 };
    let mut target = hp(5);
    apply_hit(&mut src, &mut target);
    assert_eq!(target.hp, 3);
    assert_eq!(src.damage, -3);
    assert!(src.is_spent());
    assert!(!target.is_dead());
}

#[test]
fn exact_kill_consumes_projectile() {
    let mut src = DamageSource { damage: 4 };
    let mut target = hp(4);
    apply_hit(&mut src, &mut target);
    assert_eq!(target.hp, 0);
    assert_eq!(src.damage, 0);
    assert!(target.is_dead());
}

#[test]
fn consumption_rule_on_a_range_of_values() {
    for d in 1..8 {
        for h in 1..8 {
            let mut src = DamageSource { damage: d };
            let mut target = hp(h);
            apply_hit(&mut src, &mut target);
            if d <= h {
                assert!(src.damage <= 0);
            } else {
                assert!(src.damage > 0);
                assert!(target.hp <= 0);
            }
        }
    }
}

#[test]
fn projectile_pierces_through_kills_only() {
    let mut src = DamageSource { damage: 6 };
    let mut targets = vec![hp(2), hp(3), hp(5), hp(1)];
    let contacts = vec![
        Contact { target: 0, touching: true },
        Contact { target: 1, touching: true },
        Contact { target: 2, touching: true },
        Contact { target: 3, touching: true },
    ];
    resolve_projectile(&mut src, &mut targets, &contacts);
    // 6 kills 2 (4 left), kills 3 (1 left), wounds 5 (spent); target 3 untouched.
    assert_eq!(targets, vec![hp(-4), hp(-1), hp(4), hp(1)]);
    assert_eq!(src.damage, -4);
}

#[test]
fn dead_untouched_and_unknown_contacts_are_passed_over() {
    let mut src = DamageSource { damage: 3 };
    let mut targets = vec![hp(0), hp(2), hp(9)];
    let contacts = vec![
        Contact { target: 0, touching: true },
        Contact { target: 2, touching: false },
        Contact { target: 7, touching: true },
        Contact { target: 1, touching: true },
        Contact { target: 1, touching: true },
    ];
    resolve_projectile(&mut src, &mut targets, &contacts);
    // Target 1 dies once and is then passed over as dead.
    assert_eq!(targets, vec![hp(0), hp(-1), hp(9)]);
    assert_eq!(src.damage, 1);
}

#[test]
fn spent_projectile_does_nothing() {
    let mut src = DamageSource { damage: 0 };
    let mut targets = vec![hp(3)];
    resolve_projectile(&mut src, &mut targets, &vec![Contact { target: 0, touching: true }]);
    assert_eq!(targets, vec![hp(3)]);
    assert_eq!(src.damage, 0);
}

#[test]
fn health_from_max_and_default_damage() {
    let h = Health::from_max(10);
    assert_eq!(h, Health { hp: 10, max: 10 });
    assert_eq!(DamageSource::default().damage, 1);
}

#[test]
fn despawn_signal() {
    assert!(should_despawn(true, None, None));
    assert!(!should_despawn(false, None, None));
    assert!(should_despawn(false, Some(hp(0)), None));
    assert!(!should_despawn(false, Some(hp(1)), Some(DamageSource { damage: 1 })));
    assert!(should_despawn(false, Some(hp(1)), Some(DamageSource { damage: -2 })));
    assert!(should_despawn(false, None, Some(DamageSource { damage: 0 })));
}

#[test]
fn enemy_count_bounds_spawning() {
    let mut c = EnemyCount::default();
    assert_eq!((c.count, c.max), (0, 1000));
    assert_eq!(c.spawn_batch(100), 100);
    c.record_spawns(950);
    assert_eq!(c.spawn_batch(100), 50);
    c.record_spawns(50);
    assert_eq!(c.spawn_batch(100), 0);
    c.record_despawn();
    assert_eq!(c.count, 999);
    assert_eq!(c.spawn_batch(100), 1);
}
