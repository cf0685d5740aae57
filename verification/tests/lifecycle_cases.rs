//! Scenario tests for knockback decay, cascading despawn, timed
//! cleanup, reaping, spawning and the flow-state transitions.

use snowbrawl::components::{
    AppState, EnemyCount, EnemyHealth, EnemyTimer, GameState, Knockback, DestroyAfter,
    InvincibleTimer, PlayerHealth, PlayerStats,
};
use snowbrawl::geom::{Vec2, COORD_UNIT};
use snowbrawl::knockback::knockback_system;
use snowbrawl::lifecycle::{
    chase_player, cleanup_xp, clean_up_enemies, destroy_after, invincible, kill_dead_enemies,
    kill_player, powerup_player, scale_snowball_to_health, upgrade_player,
};
use snowbrawl::spawn::{spawn_enemy, spawn_pickup, spawn_player};
use snowbrawl::world::{make_blank, World};

fn unit(n: i64) -> i64 {
    n * COORD_UNIT
}

#[test]
fn knockback_decays_to_exactly_zero() {
    // Strength 10 under friction 3 travels 10 + 7 + 4 + 1 = 22 steps of
    // the direction and rests exactly on the fourth tick.
    let mut w = World::new();
    let idx = w.ents.len();
    let mut e = make_blank(Vec2::new(0, 0));
    e.knockback = Some(Knockback { direction: Vec2::new(256, 0), strength: 10 });
    w.ents.push(e);
    for tick in 0..4 {
        assert!(w.ents[idx].knockback.is_some(), "still impulsed before tick {}", tick);
        knockback_system(&mut w, 3);
    }
    assert!(w.ents[idx].knockback.is_none());
    assert_eq!(w.ents[idx].pos.x, 256 * 22);
    assert_eq!(w.ents[idx].pos.y, 0);
}

#[test]
fn new_knockback_overwrites_rather_than_stacks() {
    let stats = PlayerStats::starting();
    let mut w = World::new();
    let idx = w.ents.len();
    let mut e = make_blank(Vec2::new(0, 0));
    e.enemy = true;
    e.enemy_health = Some(EnemyHealth { health: 10000 });
    e.knockback = Some(Knockback { direction: Vec2::new(0, 256), strength: 999 });
    w.ents.push(e);
    let _ = snowbrawl::spawn::fire_projectile(&mut w, Vec2::new(unit(5), 0), &stats);
    let _ = snowbrawl::combat::projectiles_collision(&mut w, &stats);
    let kb = w.ents[idx].knockback.unwrap();
    assert_eq!(kb.strength, stats.knockback_strength);
    assert!(kb.direction.x < 0);
}

#[test]
fn despawn_cascades_once_and_is_idempotent() {
    // Despawning an enemy takes its sprite and shadow children with it,
    // exactly once, however many systems despawn the same root.
    let mut w = World::new();
    let mut timer = EnemyTimer::starting();
    let mut count = EnemyCount { enemy_count: 0, max_enemies: 100, min_enemies: 0 };
    let spawned = spawn_enemy(&mut w, &mut timer, &mut count, 1000, Vec2::new(unit(100), 0));
    assert!(spawned);
    assert_eq!(w.ents.len(), 3);
    assert_eq!(w.ents[0].enemy_health.unwrap().health, 10000);
    assert_eq!(w.ents[1].parent, Some(0));
    assert_eq!(w.ents[2].parent, Some(0));
    w.despawn_recursive(0);
    assert!(!w.ents[0].alive && !w.ents[1].alive && !w.ents[2].alive);
    let snapshot: Vec<bool> = w.ents.iter().map(|e| e.alive).collect();
    w.despawn_recursive(0);
    let again: Vec<bool> = w.ents.iter().map(|e| e.alive).collect();
    assert_eq!(snapshot, again);
}

#[test]
fn timed_destruction_cascades_to_children() {
    let mut w = World::new();
    let root = w.ents.len();
    let mut e = make_blank(Vec2::new(0, 0));
    e.destroy_after = Some(DestroyAfter { duration: 800 });
    w.ents.push(e);
    let child = w.ents.len();
    let mut c = make_blank(Vec2::new(0, 0));
    c.parent = Some(root);
    w.ents.push(c);
    destroy_after(&mut w, 500);
    assert!(w.ents[root].alive && w.ents[child].alive);
    destroy_after(&mut w, 500);
    assert!(!w.ents[root].alive && !w.ents[child].alive);
}

#[test]
fn invincibility_window_expires_after_its_duration() {
    let mut w = World::new();
    let idx = w.ents.len();
    let mut e = make_blank(Vec2::new(0, 0));
    e.iframes = Some(InvincibleTimer { time_left: 100 });
    w.ents.push(e);
    invincible(&mut w, 60);
    assert_eq!(w.ents[idx].iframes.unwrap().time_left, 40);
    invincible(&mut w, 60);
    assert!(w.ents[idx].iframes.is_none());
}

#[test]
fn dead_enemy_reaped_with_orb_count_and_heal() {
    let mut w = World::new();
    let p = spawn_player(&mut w, Vec2::new(0, 0));
    let enemy = w.ents.len();
    let mut e = make_blank(Vec2::new(unit(30), unit(7)));
    e.enemy = true;
    e.enemy_health = Some(EnemyHealth { health: -50 });
    w.ents.push(e);
    let mut count = EnemyCount { enemy_count: 1, max_enemies: 100, min_enemies: 0 };
    kill_dead_enemies(&mut w, &mut count);
    assert!(!w.ents[enemy].alive);
    assert_eq!(count.enemy_count, 0);
    // A fifth of a point healed.
    assert_eq!(w.ents[p].player_health.unwrap().hp, 1020);
    // The orb dropped where the enemy stood.
    let orb = w.ents.len() - 1;
    assert_eq!(w.ents[orb].enemy_xp.unwrap().xp, 100);
    assert_eq!(w.ents[orb].pos.x, unit(30));
    assert_eq!(w.ents[orb].pos.y, unit(7));
    assert!(w.ents[orb].chase.is_some());
}

#[test]
fn xp_threshold_requests_upgrade_and_resets() {
    // Crossing the requirement requests the upgrade transition, resets
    // the tally to zero, and raises the requirement by 4.0.
    let mut w = World::new();
    let p = spawn_player(&mut w, Vec2::new(0, 0));
    let mut pe = w.ents[p];
    pe.player_xp = Some(snowbrawl::components::PlayerXp { xp: 1000 });
    w.ents[p] = pe;
    let mut stats = PlayerStats::starting();
    let requested = upgrade_player(&mut w, &mut stats);
    assert!(requested);
    assert_eq!(w.ents[p].player_xp.unwrap().xp, 0);
    assert_eq!(stats.xp_requirement, 1400);
    let again = upgrade_player(&mut w, &mut stats);
    assert!(!again);
}

#[test]
fn dead_player_requests_game_over() {
    let mut w = World::new();
    let p = spawn_player(&mut w, Vec2::new(0, 0));
    let mut pe = w.ents[p];
    pe.player_health = Some(PlayerHealth { hp: 0 });
    w.ents[p] = pe;
    let transition = kill_player(&mut w);
    assert_eq!(transition, Some((AppState::GameOver, GameState::Paused)));
    assert!(!w.ents[p].alive);
    // The snowball child went down with the player.
    assert!(!w.ents[p + 1].alive);
}

#[test]
fn live_player_requests_nothing() {
    let mut w = World::new();
    let p = spawn_player(&mut w, Vec2::new(0, 0));
    let transition = kill_player(&mut w);
    assert_eq!(transition, None);
    assert!(w.ents[p].alive);
}

#[test]
fn snowball_scale_tracks_health() {
    let mut w = World::new();
    let p = spawn_player(&mut w, Vec2::new(0, 0));
    let mut pe = w.ents[p];
    pe.player_health = Some(PlayerHealth { hp: 2000 });
    w.ents[p] = pe;
    scale_snowball_to_health(&mut w);
    assert_eq!(w.ents[p + 1].snowball.unwrap().scale_pct, 200);
}

#[test]
fn powerup_window_expires_with_its_blink() {
    let mut w = World::new();
    let p = spawn_player(&mut w, Vec2::new(0, 0));
    let mut pe = w.ents[p];
    pe.powered_up = Some(snowbrawl::components::PoweredUp { time_left: 5000 });
    pe.blink = Some(snowbrawl::components::Blink { speed: 100 });
    w.ents[p] = pe;
    powerup_player(&mut w, 2500);
    assert_eq!(w.ents[p].powered_up.unwrap().time_left, 2500);
    assert_eq!(w.ents[p].blink.unwrap().speed, 50);
    powerup_player(&mut w, 2500);
    assert!(w.ents[p].powered_up.is_none());
    assert!(w.ents[p].blink.is_none());
}

#[test]
fn chase_moves_toward_player_unless_frozen() {
    let mut w = World::new();
    let _p = spawn_player(&mut w, Vec2::new(0, 0));
    let enemy = w.ents.len();
    let mut e = make_blank(Vec2::new(unit(100), 0));
    e.enemy = true;
    e.chase = Some(snowbrawl::components::ChasePlayer {
        speed: 25 * COORD_UNIT,
        radius: 1000 * COORD_UNIT,
    });
    w.ents.push(e);
    chase_player(&mut w, 1000);
    // 25 units per second toward the player over one second.
    assert_eq!(w.ents[enemy].pos.x, unit(100) - unit(25));
    let mut frozen = w.ents[enemy];
    frozen.status = snowbrawl::components::Status::Frozen(snowbrawl::components::Frozen {
        duration: 1000,
    });
    w.ents[enemy] = frozen;
    chase_player(&mut w, 1000);
    assert_eq!(w.ents[enemy].pos.x, unit(100) - unit(25));
}

#[test]
fn pacing_spawns_on_schedule() {
    let mut w = World::new();
    let mut timer = EnemyTimer::starting();
    let mut count = EnemyCount { enemy_count: 0, max_enemies: 100, min_enemies: 0 };
    // Half a second in: nothing due yet.
    let first = spawn_enemy(&mut w, &mut timer, &mut count, 500, Vec2::new(unit(300), 0));
    assert!(!first);
    assert_eq!(count.enemy_count, 0);
    // The full second fires the spawn countdown.
    let second = spawn_enemy(&mut w, &mut timer, &mut count, 500, Vec2::new(unit(300), 0));
    assert!(second);
    assert_eq!(count.enemy_count, 1);
    assert_eq!(w.ents.len(), 3);
}

#[test]
fn pickup_drip_spawns_on_the_second() {
    let mut w = World::new();
    let mut timer_ms: u32 = 1000;
    let early = spawn_pickup(&mut w, &mut timer_ms, 400, Vec2::new(unit(50), 0));
    assert!(!early);
    assert_eq!(timer_ms, 600);
    let due = spawn_pickup(&mut w, &mut timer_ms, 600, Vec2::new(unit(50), 0));
    assert!(due);
    assert_eq!(timer_ms, 1000);
    assert_eq!(w.ents.len(), 2);
    assert!(w.ents[0].pickup.is_some());
    assert_eq!(w.ents[1].parent, Some(0));
}

#[test]
fn shield_ring_rebuilt_when_count_changes() {
    let mut w = World::new();
    let p = spawn_player(&mut w, Vec2::new(0, 0));
    let mut stats = PlayerStats::starting();
    stats.num_shields = 2;
    let mut last: u32 = 0;
    let offsets = vec![Vec2::new(unit(50), 0), Vec2::new(-unit(50), 0)];
    snowbrawl::spawn::update_shields(&mut w, &stats, &mut last, &offsets);
    assert_eq!(last, 2);
    let shields: Vec<usize> = (0..w.ents.len())
        .filter(|&i| w.ents[i].alive && w.ents[i].shield.is_some())
        .collect();
    assert_eq!(shields.len(), 2);
    assert_eq!(w.ents[shields[0]].parent, Some(p));
    assert_eq!(w.ents[shields[0]].pos.x, unit(50));
    // An unchanged count leaves the ring alone.
    let before = w.ents.len();
    snowbrawl::spawn::update_shields(&mut w, &stats, &mut last, &offsets);
    assert_eq!(w.ents.len(), before);
    // A changed count despawns the old ring and spawns the new one.
    stats.num_shields = 1;
    let one = vec![Vec2::new(0, unit(50))];
    snowbrawl::spawn::update_shields(&mut w, &stats, &mut last, &one);
    assert_eq!(last, 1);
    assert!(!w.ents[shields[0]].alive && !w.ents[shields[1]].alive);
    let live: Vec<usize> = (0..w.ents.len())
        .filter(|&i| w.ents[i].alive && w.ents[i].shield.is_some())
        .collect();
    assert_eq!(live.len(), 1);
    assert_eq!(w.ents[live[0]].pos.y, unit(50));
}

#[test]
fn scope_exit_clears_orbs_and_enemies() {
    let mut w = World::new();
    let mut orb = make_blank(Vec2::new(0, 0));
    orb.enemy_xp = Some(snowbrawl::components::EnemyXp { xp: 100 });
    w.ents.push(orb);
    let mut timer = EnemyTimer::starting();
    let mut count = EnemyCount { enemy_count: 0, max_enemies: 100, min_enemies: 0 };
    let spawned = spawn_enemy(&mut w, &mut timer, &mut count, 1000, Vec2::new(unit(10), 0));
    assert!(spawned);
    cleanup_xp(&mut w);
    assert!(!w.ents[0].alive);
    assert!(w.ents[1].alive);
    clean_up_enemies(&mut w);
    // The enemy and both its children are gone, timers notwithstanding.
    assert!(!w.ents[1].alive && !w.ents[2].alive && !w.ents[3].alive);
}
