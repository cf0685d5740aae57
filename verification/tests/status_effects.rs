//! Scenario tests for the freeze / fire state machine and its ticking.

use snowbrawl::components::{
    EnemyHealth, Frozen, OnFire, PlayerStats, Status,
};
use snowbrawl::geom::Vec2;
use snowbrawl::status::{extinguish, fire_check, freeze_check, unfreeze, vunerable_tickdown};
use snowbrawl::world::{make_blank, World};

fn push_enemy_with_sprite(w: &mut World, health: i64) -> (usize, usize) {
    let idx = w.ents.len();
    let mut e = make_blank(Vec2::new(0, 0));
    e.enemy = true;
    e.enemy_health = Some(EnemyHealth { health });
    w.ents.push(e);
    let sprite_idx = w.ents.len();
    let mut s = make_blank(Vec2::new(0, 0));
    s.parent = Some(idx);
    w.ents.push(s);
    let mut fixed = w.ents[idx];
    fixed.visual_child = Some(sprite_idx);
    w.ents[idx] = fixed;
    (idx, sprite_idx)
}

#[test]
fn fire_request_on_frozen_enemy_thaws_and_ignites() {
    // Enemy frozen for five seconds receives a fire request: the frost
    // is removed immediately, the freezer-burn vulnerability is granted
    // with the configured duration and multiplier, and the fire is
    // applied with its configured duration.
    let mut stats = PlayerStats::starting();
    stats.freezer_burn = true;
    let mut w = World::new();
    let (enemy, sprite) = push_enemy_with_sprite(&mut w, 10000);
    let mut e = w.ents[enemy];
    e.status = Status::Frozen(Frozen { duration: 5000 });
    e.check_fire = true;
    w.ents[enemy] = e;
    let mut s = w.ents[sprite];
    s.status = Status::Frozen(Frozen { duration: 5000 });
    w.ents[sprite] = s;
    fire_check(&mut w, &stats);
    assert_eq!(
        w.ents[enemy].status,
        Status::OnFire(OnFire { duration: stats.fire_duration })
    );
    let v = w.ents[enemy].vunerable.unwrap();
    assert_eq!(v.duration, stats.freezer_burn_duration);
    assert_eq!(v.multiplier, stats.freezer_burn_multiplier);
    // The sprite's frozen mirror thawed and it blinks with the fire cue.
    assert_eq!(w.ents[sprite].status, Status::Normal);
    assert!(w.ents[sprite].blink.is_some());
    // A fire-animation child was spawned under the enemy.
    let anim = w.ents.len() - 1;
    assert_eq!(w.ents[anim].parent, Some(enemy));
    assert!(matches!(w.ents[anim].status, Status::OnFire(_)));
}

#[test]
fn freeze_request_on_burning_enemy_extinguishes_with_flash_freeze() {
    // A freeze request on a burning enemy extinguishes the fire, deals
    // the one-time flash-freeze fraction when that upgrade is on, and
    // applies the fresh frost.
    let mut stats = PlayerStats::starting();
    stats.flash_freeze = true;
    let mut w = World::new();
    let (enemy, sprite) = push_enemy_with_sprite(&mut w, 10000);
    let mut e = w.ents[enemy];
    e.status = Status::OnFire(OnFire { duration: 5000 });
    e.check_freeze = true;
    e.check_fire = true;
    w.ents[enemy] = e;
    freeze_check(&mut w, &stats);
    assert_eq!(
        w.ents[enemy].status,
        Status::Frozen(Frozen { duration: stats.freeze_duration })
    );
    // Fifteen percent of 100.0 burned off: 85.0 left.
    assert_eq!(w.ents[enemy].enemy_health.unwrap().health, 8500);
    // The pending fire request was cancelled by the cross.
    assert!(!w.ents[enemy].check_fire);
    // The sprite got the frozen mirror and a single neutral pulse.
    assert!(matches!(w.ents[sprite].status, Status::Frozen(_)));
    assert!(w.ents[sprite].flash.is_some());
    // A frost overlay child was spawned under the enemy.
    let overlay = w.ents.len() - 1;
    assert_eq!(w.ents[overlay].parent, Some(enemy));
    assert!(matches!(w.ents[overlay].status, Status::Frozen(_)));
    assert!(w.ents[overlay].destroy_after.is_some());
}

#[test]
fn freeze_request_on_frozen_enemy_is_discarded() {
    let stats = PlayerStats::starting();
    let mut w = World::new();
    let (enemy, _) = push_enemy_with_sprite(&mut w, 10000);
    let mut e = w.ents[enemy];
    e.status = Status::Frozen(Frozen { duration: 1234 });
    e.check_freeze = true;
    w.ents[enemy] = e;
    let before = w.ents.len();
    freeze_check(&mut w, &stats);
    // No refresh, no overlay, flag cleared.
    assert_eq!(w.ents[enemy].status, Status::Frozen(Frozen { duration: 1234 }));
    assert!(!w.ents[enemy].check_freeze);
    assert_eq!(w.ents.len(), before);
}

#[test]
fn fire_request_on_burning_enemy_is_discarded() {
    let stats = PlayerStats::starting();
    let mut w = World::new();
    let (enemy, _) = push_enemy_with_sprite(&mut w, 10000);
    let mut e = w.ents[enemy];
    e.status = Status::OnFire(OnFire { duration: 777 });
    e.check_fire = true;
    w.ents[enemy] = e;
    let before = w.ents.len();
    fire_check(&mut w, &stats);
    assert_eq!(w.ents[enemy].status, Status::OnFire(OnFire { duration: 777 }));
    assert!(!w.ents[enemy].check_fire);
    assert_eq!(w.ents.len(), before);
}

#[test]
fn enemy_is_never_frozen_and_burning_at_once() {
    // Drive a crossing sequence of requests through both passes and
    // observe the status is always a single variant.
    let mut stats = PlayerStats::starting();
    stats.freezer_burn = true;
    stats.flash_freeze = true;
    let mut w = World::new();
    let (enemy, _) = push_enemy_with_sprite(&mut w, 10000);
    for round in 0..4 {
        let mut e = w.ents[enemy];
        if round % 2 == 0 {
            e.check_fire = true;
        } else {
            e.check_freeze = true;
        }
        w.ents[enemy] = e;
        fire_check(&mut w, &stats);
        freeze_check(&mut w, &stats);
        let st = w.ents[enemy].status;
        let frozen = matches!(st, Status::Frozen(_));
        let burning = matches!(st, Status::OnFire(_));
        assert!(!(frozen && burning));
        assert!(frozen || burning);
    }
}

#[test]
fn frost_ticks_down_and_melts_at_zero() {
    let mut w = World::new();
    let (enemy, _) = push_enemy_with_sprite(&mut w, 10000);
    let mut e = w.ents[enemy];
    e.status = Status::Frozen(Frozen { duration: 5000 });
    w.ents[enemy] = e;
    unfreeze(&mut w, 3000);
    assert_eq!(w.ents[enemy].status, Status::Frozen(Frozen { duration: 2000 }));
    unfreeze(&mut w, 3000);
    assert_eq!(w.ents[enemy].status, Status::Normal);
}

#[test]
fn fire_burns_per_tick_and_expires() {
    // 10.0 damage per second over half a second is 5.0 per tick.
    let stats = PlayerStats::starting();
    let mut w = World::new();
    let (enemy, sprite) = push_enemy_with_sprite(&mut w, 10000);
    let mut e = w.ents[enemy];
    e.status = Status::OnFire(OnFire { duration: 1000 });
    w.ents[enemy] = e;
    let mut s = w.ents[sprite];
    s.blink = Some(snowbrawl::components::Blink { speed: 1000 });
    w.ents[sprite] = s;
    extinguish(&mut w, 500, &stats);
    assert_eq!(w.ents[enemy].enemy_health.unwrap().health, 9500);
    assert_eq!(w.ents[enemy].status, Status::OnFire(OnFire { duration: 500 }));
    assert!(w.ents[sprite].blink.is_some());
    extinguish(&mut w, 500, &stats);
    assert_eq!(w.ents[enemy].enemy_health.unwrap().health, 9000);
    assert_eq!(w.ents[enemy].status, Status::Normal);
    // On expiry the blink is replaced with a single neutral pulse.
    assert!(w.ents[sprite].blink.is_none());
    assert!(w.ents[sprite].flash.is_some());
}

#[test]
fn vulnerability_window_ticks_away() {
    let mut w = World::new();
    let (enemy, _) = push_enemy_with_sprite(&mut w, 10000);
    let mut e = w.ents[enemy];
    e.vunerable = Some(snowbrawl::components::Vunerable { multiplier: 200, duration: 2000 });
    w.ents[enemy] = e;
    vunerable_tickdown(&mut w, 1500);
    let v = w.ents[enemy].vunerable.unwrap();
    assert_eq!(v.duration, 500);
    assert_eq!(v.multiplier, 200);
    vunerable_tickdown(&mut w, 1500);
    assert!(w.ents[enemy].vunerable.is_none());
}
