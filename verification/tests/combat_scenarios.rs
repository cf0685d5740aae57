//! Scenario tests for hit resolution: projectile damage, invincibility
//! gating, pierce accounting, the snowball contact rules and enemy
//! separation.

use snowbrawl::combat::{
    projectiles_collision, shield_collision, player_collision, enemy_collision, xp_collision,
    pickup_colliisions,
};
use snowbrawl::components::{EnemyCount, EnemyHealth, PlayerStats, Player, Vunerable};
use snowbrawl::geom::{Vec2, COORD_UNIT};
use snowbrawl::spawn::{fire_projectile, spawn_player};
use snowbrawl::world::{make_blank, World};

fn unit(n: i64) -> i64 {
    n * COORD_UNIT
}

fn push_enemy(w: &mut World, x: i64, y: i64, health: i64) -> usize {
    let idx = w.ents.len();
    let mut e = make_blank(Vec2::new(x, y));
    e.enemy = true;
    e.enemy_health = Some(EnemyHealth { health });
    w.ents.push(e);
    idx
}

#[test]
fn projectile_hit_applies_damage_knockback_and_iframes() {
    // Enemy with 100.0 health, hit by a projectile with 34.0 damage and
    // no vulnerability: health 66.0, knockback away from the projectile,
    // invincibility window attached.
    let stats = PlayerStats::starting();
    let mut w = World::new();
    let enemy = push_enemy(&mut w, 0, 0, 10000);
    let _p = fire_projectile(&mut w, Vec2::new(unit(5), 0), &stats);
    let _ = projectiles_collision(&mut w, &stats);
    assert_eq!(w.ents[enemy].enemy_health.unwrap().health, 6600);
    assert!(w.ents[enemy].iframes.is_some());
    let kb = w.ents[enemy].knockback.unwrap();
    assert_eq!(kb.strength, stats.knockback_strength);
    assert!(kb.direction.x < 0);
    assert_eq!(kb.direction.y, 0);
}

#[test]
fn vulnerability_multiplies_projectile_damage() {
    let stats = PlayerStats::starting();
    let mut w = World::new();
    let enemy = push_enemy(&mut w, 0, 0, 10000);
    let mut e = w.ents[enemy];
    e.vunerable = Some(Vunerable { multiplier: 200, duration: 2000 });
    w.ents[enemy] = e;
    let _ = fire_projectile(&mut w, Vec2::new(unit(5), 0), &stats);
    let _ = projectiles_collision(&mut w, &stats);
    // 34.0 damage doubled: 100.0 - 68.0 = 32.0.
    assert_eq!(w.ents[enemy].enemy_health.unwrap().health, 3200);
}

#[test]
fn two_projectiles_damage_once_within_window() {
    // An enemy hit by two different projectiles in the same tick takes
    // damage exactly once: the first hit installs the window.
    let stats = PlayerStats::starting();
    let mut w = World::new();
    let enemy = push_enemy(&mut w, 0, 0, 10000);
    let _p1 = fire_projectile(&mut w, Vec2::new(unit(5), 0), &stats);
    let _p2 = fire_projectile(&mut w, Vec2::new(-unit(5), 0), &stats);
    let _ = projectiles_collision(&mut w, &stats);
    assert_eq!(w.ents[enemy].enemy_health.unwrap().health, 6600);
}

#[test]
fn pierce_budget_spends_one_charge_per_hit() {
    // A projectile with pierce 1 survives its first hit with the charge
    // spent, and is destroyed by its second.
    let mut stats = PlayerStats::starting();
    stats.projectile_piercing = 1;
    let mut w = World::new();
    let e1 = push_enemy(&mut w, 0, 0, 10000);
    let e2 = push_enemy(&mut w, unit(10), 0, 10000);
    let p = fire_projectile(&mut w, Vec2::new(unit(5), 0), &stats);
    let _ = projectiles_collision(&mut w, &stats);
    assert!(!w.ents[p].alive);
    assert_eq!(w.ents[e1].enemy_health.unwrap().health, 6600);
    assert_eq!(w.ents[e2].enemy_health.unwrap().health, 6600);
}

#[test]
fn pierce_zero_projectile_destroyed_on_first_hit() {
    let stats = PlayerStats::starting();
    let mut w = World::new();
    let e1 = push_enemy(&mut w, 0, 0, 10000);
    let e2 = push_enemy(&mut w, unit(40), 0, 10000);
    let p = fire_projectile(&mut w, Vec2::new(unit(5), 0), &stats);
    let _ = projectiles_collision(&mut w, &stats);
    assert!(!w.ents[p].alive);
    assert_eq!(w.ents[e1].enemy_health.unwrap().health, 6600);
    // The far enemy was out of range and the projectile already gone.
    assert_eq!(w.ents[e2].enemy_health.unwrap().health, 10000);
}

#[test]
fn status_flags_follow_the_chance_bounds() {
    // A chance of 100 always beats the draw from 1..=99; a chance of 0
    // never does.
    let mut stats = PlayerStats::starting();
    stats.freeze_chance = 100;
    stats.fire_chance = 0;
    let mut w = World::new();
    let enemy = push_enemy(&mut w, 0, 0, 10000);
    let _ = fire_projectile(&mut w, Vec2::new(unit(5), 0), &stats);
    let _ = projectiles_collision(&mut w, &stats);
    assert!(w.ents[enemy].check_freeze);
    assert!(!w.ents[enemy].check_fire);
}

#[test]
fn shield_hit_damages_enemy() {
    let stats = PlayerStats::starting();
    let mut w = World::new();
    let p = spawn_player(&mut w, Vec2::new(0, 0));
    let enemy = push_enemy(&mut w, unit(50) + unit(4), 0, 10000);
    // A shield orbiting fifty units east of the player.
    let shield_idx = w.ents.len();
    let mut s = make_blank(Vec2::new(unit(50), 0));
    s.parent = Some(p);
    s.shield = Some(snowbrawl::components::Shield { damage: stats.shield_damage });
    w.ents.push(s);
    let _ = shield_collision(&mut w, &stats);
    // 10.0 shield damage: 100.0 - 10.0 = 90.0.
    assert_eq!(w.ents[enemy].enemy_health.unwrap().health, 9000);
    assert!(w.ents[enemy].iframes.is_some());
    assert!(w.ents[shield_idx].alive);
}

#[test]
fn contact_damages_unpowered_player() {
    // Player not powered up, enemy within the snowball's contact radius,
    // no active window: 3.0 contact damage, velocity halved, window
    // attached to the player; knockback on the enemy.
    let stats = PlayerStats::starting();
    let mut w = World::new();
    let p = spawn_player(&mut w, Vec2::new(0, 0));
    let mut pe = w.ents[p];
    pe.player = Some(Player { velocity: Vec2::new(1000, -500) });
    w.ents[p] = pe;
    // The snowball hangs 20 units below the player.
    let enemy = push_enemy(&mut w, 0, -unit(20) + unit(5), 10000);
    let mut count = EnemyCount { enemy_count: 1, max_enemies: 100, min_enemies: 0 };
    player_collision(&mut w, &mut count, &stats);
    assert_eq!(w.ents[p].player_health.unwrap().hp, 700);
    let v = w.ents[p].player.unwrap().velocity;
    assert_eq!(v.x, 500);
    assert_eq!(v.y, -250);
    assert!(w.ents[p].iframes.is_some());
    assert!(w.ents[enemy].knockback.is_some());
    assert_eq!(count.enemy_count, 1);
}

#[test]
fn powered_player_takes_no_damage_and_hits_hard() {
    let stats = PlayerStats::starting();
    let mut w = World::new();
    let p = spawn_player(&mut w, Vec2::new(0, 0));
    let mut pe = w.ents[p];
    pe.powered_up = Some(snowbrawl::components::PoweredUp { time_left: 5000 });
    w.ents[p] = pe;
    let enemy = push_enemy(&mut w, 0, -unit(20) + unit(5), 10000);
    let mut count = EnemyCount { enemy_count: 1, max_enemies: 100, min_enemies: 0 };
    player_collision(&mut w, &mut count, &stats);
    assert_eq!(w.ents[p].player_health.unwrap().hp, 1000);
    // Base 25.0 at multiplier 100 percent: 100.0 - 25.0 = 75.0.
    assert_eq!(w.ents[enemy].enemy_health.unwrap().health, 7500);
    let kb = w.ents[enemy].knockback.unwrap();
    assert_eq!(kb.strength, 2 * stats.knockback_strength);
}

#[test]
fn runaway_enemy_despawned_without_reward() {
    let stats = PlayerStats::starting();
    let mut w = World::new();
    let _p = spawn_player(&mut w, Vec2::new(0, 0));
    let enemy = push_enemy(&mut w, unit(600), 0, 10000);
    let mut count = EnemyCount { enemy_count: 1, max_enemies: 100, min_enemies: 0 };
    player_collision(&mut w, &mut count, &stats);
    assert!(!w.ents[enemy].alive);
    assert_eq!(count.enemy_count, 0);
}

#[test]
fn overlapping_enemies_pushed_apart_symmetrically() {
    let mut w = World::new();
    let a = push_enemy(&mut w, 0, 0, 10000);
    let b = push_enemy(&mut w, unit(8), 0, 10000);
    enemy_collision(&mut w);
    // Overlap depth is 8 units; each is pushed 4 units along the line.
    assert_eq!(w.ents[a].pos.x, -unit(4));
    assert_eq!(w.ents[b].pos.x, unit(8) + unit(4));
    assert_eq!(w.ents[a].pos.y, 0);
    assert_eq!(w.ents[b].pos.y, 0);
}

#[test]
fn xp_orb_collected_within_sixteen_units() {
    // An orb within sixteen units of the player despawns and its value
    // lands in the player's tally.
    let mut w = World::new();
    let p = spawn_player(&mut w, Vec2::new(0, 0));
    let orb_idx = w.ents.len();
    let mut orb = make_blank(Vec2::new(unit(10), 0));
    orb.enemy_xp = Some(snowbrawl::components::EnemyXp { xp: 100 });
    w.ents.push(orb);
    xp_collision(&mut w);
    assert!(!w.ents[orb_idx].alive);
    assert_eq!(w.ents[p].player_xp.unwrap().xp, 100);
}

#[test]
fn far_xp_orb_stays() {
    let mut w = World::new();
    let p = spawn_player(&mut w, Vec2::new(0, 0));
    let orb_idx = w.ents.len();
    let mut orb = make_blank(Vec2::new(unit(20), 0));
    orb.enemy_xp = Some(snowbrawl::components::EnemyXp { xp: 100 });
    w.ents.push(orb);
    xp_collision(&mut w);
    assert!(w.ents[orb_idx].alive);
    assert_eq!(w.ents[p].player_xp.unwrap().xp, 0);
}

#[test]
fn pickup_grants_powered_up_window() {
    let mut w = World::new();
    let p = spawn_player(&mut w, Vec2::new(0, 0));
    let pk_idx = w.ents.len();
    let mut pk = make_blank(Vec2::new(unit(10), 0));
    pk.pickup = Some(snowbrawl::components::Pickup);
    w.ents.push(pk);
    pickup_colliisions(&mut w);
    assert!(!w.ents[pk_idx].alive);
    assert_eq!(w.ents[p].powered_up.unwrap().time_left, 5000);
    assert!(w.ents[p].blink.is_some());
}
