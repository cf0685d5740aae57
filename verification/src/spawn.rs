//! Spawning and bulk cleanup: the player and snowball pair, wave-paced
//! enemy spawning, the pickup drip, the orbiting shield ring, and the
//! despawn-everything passes that run when the combat scope is exited.

use vstd::prelude::*;
use crate::geom::{Vec2, COORD_UNIT, POS_LIMIT};
use crate::components::{
    Player, PlayerHealth, PlayerXp, PlayerSnowball, Pickup, Projectile, Shield, EnemyHealth,
    ChasePlayer, EnemyCount, EnemyTimer, PlayerStats, ticked, tick_ms, inc_count,
};
use crate::world::{
    Entity, World, world_wf, blank_at, make_blank, despawned, is_live_player, is_live_snowball,
    lemma_despawned_wf, lemma_push_root_wf, lemma_push_child_wf, parent_ok, visual_ok,
};

verus! {

/// The player entity at a position: ten points of health, no experience,
/// at rest.
pub open spec fn player_at(pos: Vec2) -> Entity {
    Entity {
        player: Some(Player { velocity: Vec2 { x: 0, y: 0 } }),
        player_health: Some(PlayerHealth { hp: 1000 }),
        player_xp: Some(PlayerXp { xp: 0 }),
        ..blank_at(pos)
    }
}

/// The snowball hitbox hanging just below its player, at scale one.
pub open spec fn snowball_of(p: int) -> Entity {
    Entity {
        parent: Some(p as usize),
        snowball: Some(PlayerSnowball { scale_pct: 100 }),
        ..blank_at(Vec2 { x: 0, y: (-20 * COORD_UNIT) as i64 })
    }
}

/// Spawn the player with its snowball hitbox child. The world must not
/// already hold either.
pub fn spawn_player(w: &mut World, pos: Vec2) -> (idx: usize)
    requires
        old(w).wf(),
        pos.in_world(),
        forall|i: int| !is_live_player(old(w)@, i),
        forall|i: int| !is_live_snowball(old(w)@, i),
    ensures
        final(w).wf(),
        idx == old(w)@.len(),
        final(w)@ == old(w)@.push(player_at(pos)).push(snowball_of(idx as int)),
{
    let ghost w0 = w@;
    let idx = w.ents.len();
    let mut pe = make_blank(pos);
    pe.player = Some(Player { velocity: Vec2 { x: 0, y: 0 } });
    pe.player_health = Some(PlayerHealth { hp: 1000 });
    pe.player_xp = Some(PlayerXp { xp: 0 });
    w.ents.push(pe);
    let mut sb = make_blank(Vec2 { x: 0, y: -20 * COORD_UNIT });
    sb.parent = Some(idx);
    sb.snowball = Some(PlayerSnowball { scale_pct: 100 });
    w.ents.push(sb);
    proof {
        let w1 = w@;
        assert(w1 =~= w0.push(player_at(pos)).push(snowball_of(idx as int)));
        assert forall|j: int| 0 <= j < w1.len() implies (#[trigger] w1[j]).bounds_ok() by {
            if j < w0.len() {
                assert(w0[j].bounds_ok());
            }
        }
        assert forall|j: int| 0 <= j < w1.len() implies parent_ok(w1, j) by {
            if j < w0.len() {
                assert(parent_ok(w0, j));
            }
        }
        assert forall|j: int| 0 <= j < w1.len() implies visual_ok(w1, j) by {
            if j < w0.len() {
                assert(visual_ok(w0, j));
            }
        }
        assert forall|a: int, b: int|
            is_live_player(w1, a) && is_live_player(w1, b) implies a == b by {
            if a < w0.len() {
                assert(is_live_player(w0, a));
            }
            if b < w0.len() {
                assert(is_live_player(w0, b));
            }
        }
        assert forall|a: int, b: int|
            is_live_snowball(w1, a) && is_live_snowball(w1, b) implies a == b by {
            if a < w0.len() {
                assert(is_live_snowball(w0, a));
            }
            if b < w0.len() {
                assert(is_live_snowball(w0, b));
            }
        }
    }
    idx
}

/// A fired projectile entity: it carries the configured damage and
/// pierce budget; trajectory is the movement collaborator's concern.
pub open spec fn projectile_at(pos: Vec2, damage: i64, pierce: i32) -> Entity {
    Entity {
        projectile: Some(Projectile { damage: damage, pierce_amount: pierce }),
        ..blank_at(pos)
    }
}

/// Fire a projectile at a position with the configured damage and
/// pierce budget.
pub fn fire_projectile(w: &mut World, pos: Vec2, stats: &PlayerStats) -> (idx: usize)
    requires
        old(w).wf(),
        stats.wf(),
        pos.in_world(),
    ensures
        final(w).wf(),
        idx == old(w)@.len(),
        final(w)@ == old(w)@.push(projectile_at(pos, stats.damage, stats.projectile_piercing)),
{
    let idx = w.ents.len();
    let mut pr = make_blank(pos);
    pr.projectile = Some(Projectile { damage: stats.damage, pierce_amount: stats.projectile_piercing });
    proof {
        lemma_push_root_wf(w@, projectile_at(pos, stats.damage, stats.projectile_piercing));
    }
    w.ents.push(pr);
    idx
}

/// A collectable pickup entity.
pub open spec fn pickup_at(pos: Vec2) -> Entity {
    Entity { pickup: Some(Pickup), ..blank_at(pos) }
}

/// The cosmetic shadow hanging under a spawned entity.
pub open spec fn shadow_of(p: int) -> Entity {
    Entity { parent: Some(p as usize), ..blank_at(Vec2 { x: 0, y: (-8 * COORD_UNIT) as i64 }) }
}

/// On a one-second drip, spawn a pickup (with its shadow child) at the
/// caller-chosen position around the player.
pub fn spawn_pickup(w: &mut World, timer_ms: &mut u32, dt: u32, pos: Vec2) -> (spawned: bool)
    requires
        old(w).wf(),
        pos.in_world(),
    ensures
        final(w).wf(),
        spawned == (ticked(*old(timer_ms), dt) == 0),
        spawned ==> *final(timer_ms) == 1000 && final(w)@ == old(w)@.push(pickup_at(pos)).push(
            shadow_of(old(w)@.len() as int),
        ),
        !spawned ==> *final(timer_ms) == ticked(*old(timer_ms), dt) && final(w)@ == old(w)@,
{
    let ghost w0 = w@;
    let left = tick_ms(*timer_ms, dt);
    if left == 0 {
        *timer_ms = 1000;
        let idx = w.ents.len();
        let mut pk = make_blank(pos);
        pk.pickup = Some(Pickup);
        proof {
            lemma_push_root_wf(w@, pickup_at(pos));
        }
        w.ents.push(pk);
        let mut sh = make_blank(Vec2 { x: 0, y: -8 * COORD_UNIT });
        sh.parent = Some(idx);
        proof {
            lemma_push_child_wf(w@, shadow_of(idx as int), idx as int);
        }
        w.ents.push(sh);
        proof {
            assert(w@ =~= w0.push(pickup_at(pos)).push(shadow_of(idx as int)));
        }
        true
    } else {
        *timer_ms = left;
        false
    }
}

/// Countdowns never fall below the clamp floor.
pub open spec fn time_floor(t: int) -> int {
    if t < -0x100_0000_0000 {
        -0x100_0000_0000
    } else {
        t
    }
}

impl EnemyTimer {
    /// The pacing state a fresh run starts from: one enemy a second,
    /// three-second waves, and the aggressive late-run switch after five
    /// minutes.
    pub fn starting() -> (r: EnemyTimer)
        ensures
            r == (EnemyTimer {
                spawn_time: 1000,
                wave_time: 3000,
                next_enemy_time: 300_000,
                next_enemy_reached: false,
                default_time: 1000,
                agressive_time: 100,
            }),
            r.wf(),
    {
        EnemyTimer {
            spawn_time: 1000,
            wave_time: 3000,
            next_enemy_time: 300_000,
            next_enemy_reached: false,
            default_time: 1000,
            agressive_time: 100,
        }
    }

    /// The ranges the pacing state stays within.
    pub open spec fn wf(self) -> bool {
        &&& -0x100_0000_0000 <= self.spawn_time <= 0x100_0000_0000
        &&& -0x100_0000_0000 <= self.wave_time <= 0x100_0000_0000
        &&& -0x100_0000_0000 <= self.next_enemy_time <= 0x100_0000_0000
        &&& -0x100_0000_0000 <= self.default_time <= 0x100_0000_0000
        &&& -0x100_0000_0000 <= self.agressive_time <= 0x100_0000_0000
    }
}

/// Saturating increment of a population counter, in the specification.
pub open spec fn inc_sat(c: int) -> int {
    if c < i32::MAX {
        c + 1
    } else {
        c
    }
}

/// The spawn-pacing decision for one tick: the late-run switch counts
/// down and, once reached, resets the population floor and quickens the
/// waves; each wave raises the population band; and when the spawn
/// countdown fires below the population cap an enemy is due, at the
/// default or aggressive rate depending on the current floor.
pub open spec fn pacing(t: EnemyTimer, c: EnemyCount, dt: u32) -> (EnemyTimer, EnemyCount, bool) {
    let nt = if !t.next_enemy_reached {
        time_floor(t.next_enemy_time - dt)
    } else {
        t.next_enemy_time as int
    };
    let reached = nt < 0 || t.next_enemy_reached;
    let nt2 = if nt < 0 {
        500_000
    } else {
        nt
    };
    let min1 = if nt < 0 {
        0
    } else {
        c.min_enemies as int
    };
    let wt = time_floor(t.wave_time - dt);
    let grow = wt <= 0;
    let min2 = if grow {
        inc_sat(min1)
    } else {
        min1
    };
    let max2 = if grow {
        inc_sat(c.max_enemies as int)
    } else {
        c.max_enemies as int
    };
    let wt2 = if grow {
        if reached {
            2000
        } else {
            3000
        }
    } else {
        wt
    };
    let st = time_floor(t.spawn_time - dt);
    let due = st <= 0 && c.enemy_count < max2;
    let st2 = if due {
        if c.enemy_count > min2 {
            t.default_time as int
        } else {
            t.agressive_time as int
        }
    } else {
        st
    };
    let cnt2 = if due {
        c.enemy_count + 1
    } else {
        c.enemy_count as int
    };
    (
        EnemyTimer {
            spawn_time: st2 as i64,
            wave_time: wt2 as i64,
            next_enemy_time: nt2 as i64,
            next_enemy_reached: reached,
            default_time: t.default_time,
            agressive_time: t.agressive_time,
        },
        EnemyCount { enemy_count: cnt2 as i32, max_enemies: max2 as i32, min_enemies: min2 as i32 },
        due,
    )
}

/// A spawned enemy: health by era, chasing the player, with its visual
/// sprite child recorded.
pub open spec fn enemy_holder_at(pos: Vec2, health: i64, vis: int) -> Entity {
    Entity {
        enemy: true,
        enemy_health: Some(EnemyHealth { health: health }),
        chase: Some(
            ChasePlayer {
                speed: (25 * COORD_UNIT) as i64,
                radius: (1000 * COORD_UNIT) as i64,
            },
        ),
        visual_child: Some(vis as usize),
        ..blank_at(pos)
    }
}

/// The enemy's visual sprite child.
pub open spec fn sprite_of(p: int) -> Entity {
    Entity { parent: Some(p as usize), ..blank_at(Vec2 { x: 0, y: 0 }) }
}

/// Tick the spawn pacing and, when an enemy is due, spawn it at the
/// caller-chosen boundary position: the holder with its health for the
/// era, its visual sprite child, and its shadow child.
pub fn spawn_enemy(
    w: &mut World,
    timer: &mut EnemyTimer,
    count: &mut EnemyCount,
    dt: u32,
    spawn_pos: Vec2,
) -> (spawned: bool)
    requires
        old(w).wf(),
        old(timer).wf(),
        spawn_pos.in_world(),
        dt <= crate::components::DT_LIMIT_MS,
    ensures
        final(w).wf(),
        final(timer).wf(),
        ({
            let (t2, c2, due) = pacing(*old(timer), *old(count), dt);
            &&& *final(timer) == t2
            &&& *final(count) == c2
            &&& spawned == due
            &&& (due ==> final(w)@ == old(w)@.push(
                enemy_holder_at(
                    spawn_pos,
                    if t2.next_enemy_reached {
                        20000
                    } else {
                        10000
                    },
                    old(w)@.len() as int + 1,
                ),
            ).push(sprite_of(old(w)@.len() as int)).push(shadow_of(old(w)@.len() as int)))
            &&& (!due ==> final(w)@ == old(w)@)
        }),
{
    let ghost w0 = w@;
    let mut nt = timer.next_enemy_time;
    if !timer.next_enemy_reached {
        nt = time_sub(timer.next_enemy_time, dt);
        timer.next_enemy_time = nt;
    }
    if nt < 0 {
        timer.next_enemy_reached = true;
        timer.next_enemy_time = 500_000;
        count.min_enemies = 0;
    }
    let wt = time_sub(timer.wave_time, dt);
    timer.wave_time = wt;
    if wt <= 0 {
        count.min_enemies = inc_count(count.min_enemies);
        count.max_enemies = inc_count(count.max_enemies);
        timer.wave_time = if timer.next_enemy_reached {
            2000
        } else {
            3000
        };
    }
    let st = time_sub(timer.spawn_time, dt);
    timer.spawn_time = st;
    if st <= 0 && count.enemy_count < count.max_enemies {
        timer.spawn_time = if count.enemy_count > count.min_enemies {
            timer.default_time
        } else {
            timer.agressive_time
        };
        count.enemy_count = count.enemy_count + 1;
        let idx = w.ents.len();
        let health: i64 = if timer.next_enemy_reached {
            20000
        } else {
            10000
        };
        let mut holder = make_blank(spawn_pos);
        holder.enemy = true;
        holder.enemy_health = Some(EnemyHealth { health });
        holder.chase = Some(
            ChasePlayer { speed: 25 * COORD_UNIT, radius: 1000 * COORD_UNIT },
        );
        w.ents.push(holder);
        let sprite_idx = w.ents.len();
        let mut sprite = make_blank(Vec2 { x: 0, y: 0 });
        sprite.parent = Some(idx);
        w.ents.push(sprite);
        let mut shadow = make_blank(Vec2 { x: 0, y: -8 * COORD_UNIT });
        shadow.parent = Some(idx);
        w.ents.push(shadow);
        let mut fixed = w.ents[idx];
        fixed.visual_child = Some(sprite_idx);
        w.ents[idx] = fixed;
        proof {
            let w1 = w@;
            assert(w1 =~= w0.push(
                enemy_holder_at(
                    spawn_pos,
                    if timer.next_enemy_reached {
                        20000int
                    } else {
                        10000int
                    } as i64,
                    idx as int + 1,
                ),
            ).push(sprite_of(idx as int)).push(shadow_of(idx as int)));
            assert forall|j: int| 0 <= j < w1.len() implies (#[trigger] w1[j]).bounds_ok() by {
                if j < w0.len() {
                    assert(w0[j].bounds_ok());
                }
            }
            assert forall|j: int| 0 <= j < w1.len() implies parent_ok(w1, j) by {
                if j < w0.len() {
                    assert(parent_ok(w0, j));
                }
            }
            assert forall|j: int| 0 <= j < w1.len() implies visual_ok(w1, j) by {
                if j < w0.len() {
                    assert(visual_ok(w0, j));
                }
            }
            assert forall|a: int, b: int|
                is_live_player(w1, a) && is_live_player(w1, b) implies a == b by {
                if a < w0.len() {
                    assert(is_live_player(w0, a));
                }
                if b < w0.len() {
                    assert(is_live_player(w0, b));
                }
            }
            assert forall|a: int, b: int|
                is_live_snowball(w1, a) && is_live_snowball(w1, b) implies a == b by {
                if a < w0.len() {
                    assert(is_live_snowball(w0, a));
                }
                if b < w0.len() {
                    assert(is_live_snowball(w0, b));
                }
            }
        }
        true
    } else {
        false
    }
}

/// One shield-clearing step: a live shield despawns (with any children).
pub open spec fn shield_clear_step(w: Seq<Entity>, i: int) -> Seq<Entity> {
    if 0 <= i < w.len() && w[i].alive && w[i].shield is Some {
        despawned(w, i)
    } else {
        w
    }
}

/// The shield clearing folded over the first `k` entities.
pub open spec fn shield_clear_fold(w0: Seq<Entity>, k: nat) -> Seq<Entity>
    decreases k,
{
    if k == 0 {
        w0
    } else {
        shield_clear_step(shield_clear_fold(w0, (k - 1) as nat), k - 1)
    }
}

/// A shield orbiting the player at `p`, at the given offset.
pub open spec fn shield_of(p: int, off: Vec2, dmg: i64) -> Entity {
    Entity { parent: Some(p as usize), shield: Some(Shield { damage: dmg }), ..blank_at(off) }
}

/// The ring of `k` fresh shields appended under the player at `p`.
pub open spec fn shields_added(
    w0: Seq<Entity>,
    p: int,
    offs: Seq<Vec2>,
    k: nat,
    dmg: i64,
) -> Seq<Entity>
    decreases k,
{
    if k == 0 {
        w0
    } else {
        shields_added(w0, p, offs, (k - 1) as nat, dmg).push(shield_of(p, offs[k - 1], dmg))
    }
}

/// When the upgrade-driven shield count has changed, rebuild the ring:
/// every existing shield despawns and the new count is spawned fresh as
/// children of the player, at the caller-computed ring offsets, each
/// carrying the configured shield damage. With an unchanged count, or no
/// live player, nothing happens.
pub fn update_shields(
    w: &mut World,
    stats: &PlayerStats,
    last_count: &mut u32,
    offsets: &Vec<Vec2>,
)
    requires
        old(w).wf(),
        stats.wf(),
        offsets@.len() == stats.num_shields,
        forall|i: int| 0 <= i < offsets@.len() ==> (#[trigger] offsets@[i]).in_world(),
    ensures
        final(w).wf(),
        stats.num_shields == *old(last_count) ==> final(w)@ == old(w)@ && *final(last_count)
            == *old(last_count),
        (forall|i: int| !is_live_player(old(w)@, i)) && stats.num_shields != *old(last_count)
            ==> final(w)@ == old(w)@ && *final(last_count) == *old(last_count),
        forall|p: int|
            is_live_player(old(w)@, p) && old(w)@[p].parent is None && old(w)@[p].shield is None
                && stats.num_shields != *old(last_count) ==> final(w)@ == shields_added(
                shield_clear_fold(old(w)@, old(w)@.len()),
                p,
                offsets@,
                stats.num_shields as nat,
                stats.shield_damage,
            ) && *final(last_count) == stats.num_shields,
{
    if stats.num_shields == *last_count {
        return ;
    }
    let ghost w0 = w@;
    let p = match w.find_player() {
        Some(p) => p,
        None => {
            return ;
        },
    };
    if w.ents[p].parent.is_some() || w.ents[p].shield.is_some() {
        return ;
    }
    let n = w.ents.len();
    let mut i: usize = 0;
    while i < n
        invariant
            world_wf(w0),
            world_wf(w@),
            n == w0.len(),
            w@.len() == n,
            i <= n,
            p < n,
            w@[p as int].alive,
            w@[p as int].player is Some,
            w@[p as int].parent is None,
            w@[p as int].shield is None,
            w@ == shield_clear_fold(w0, i as nat),
        decreases n - i,
    {
        let ghost wpre = w@;
        let e = w.ents[i];
        if e.alive && e.shield.is_some() {
            proof {
                assert(i as int != p as int);
            }
            w.despawn_recursive(i);
            proof {
                assert(!crate::world::is_desc(wpre, i as int, p as int));
            }
        }
        proof {
            assert(w@ == shield_clear_step(wpre, i as int));
            if 0 <= i < wpre.len() && wpre[i as int].alive && wpre[i as int].shield is Some {
                lemma_despawned_wf(wpre, i as int);
            }
            assert(w@ == shield_clear_fold(w0, (i + 1) as nat));
        }
        i += 1;
    }
    let ghost wc = w@;
    let total = stats.num_shields;
    let mut k: u32 = 0;
    while k < total
        invariant
            world_wf(w@),
            k <= total,
            p < wc.len(),
            offsets@.len() == total,
            forall|j: int| 0 <= j < offsets@.len() ==> (#[trigger] offsets@[j]).in_world(),
            0 <= stats.shield_damage <= crate::components::DMG_CAP,
            w@.len() == wc.len() + k,
            w@[p as int].alive,
            w@[p as int].parent is None,
            w@ == shields_added(wc, p as int, offsets@, k as nat, stats.shield_damage),
        decreases total - k,
    {
        let off = offsets[k as usize];
        let mut s = make_blank(off);
        s.parent = Some(p);
        s.shield = Some(Shield { damage: stats.shield_damage });
        proof {
            lemma_push_child_wf(
                w@,
                shield_of(p as int, offsets@[k as int], stats.shield_damage),
                p as int,
            );
        }
        w.ents.push(s);
        k += 1;
    }
    *last_count = total;
}

/// Clamped countdown step for the pacing timers.
fn time_sub(t: i64, dt: u32) -> (r: i64)
    requires
        -0x100_0000_0000 <= t <= 0x100_0000_0000,
    ensures
        r == time_floor(t - dt),
        -0x100_0000_0000 <= r <= 0x100_0000_0000,
{
    let moved = t - (dt as i64);
    if moved < -0x100_0000_0000 {
        -0x100_0000_0000
    } else {
        moved
    }
}

} // verus!
