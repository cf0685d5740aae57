//! Pairwise combat and collection resolution: projectiles, shields and
//! the player's snowball against enemies, enemy separation, and the
//! proximity collection of experience orbs and pickups.
//!
//! Every pass sweeps entity pairs in index order and is specified as a
//! fold of its per-pair step over the arena, so the order-dependent
//! interactions — pierce spending, invincibility windows freshly applied
//! within the same tick — are pinned exactly.

use vstd::prelude::*;
use crate::geom::{
    Vec2, dist_sq, overlaps, tdiv, tdiv_i64, unit_dir, unit_toward, lemma_unit_dir_in_range,
    lemma_tdiv_bounds,
};
use crate::components::{
    PlayerXp, PoweredUp, Blink, Knockback, InvincibleTimer, FlashingTimer, EnemyHealth,
    PlayerHealth, Player, EnemyCount, Projectile, PlayerStats, chance_hits, clamp_hp, HIT_RANGE,
    POWERUP_DURATION_MS, IFRAME_DURATION_MS, FLASH_DURATION_MS, CONTACT_DAMAGE,
    POWERED_BASE_DAMAGE, SNOWBALL_BASE_RADIUS,
};
use crate::world::{
    Entity, World, world_wf, despawned, is_live_player, is_live_snowball, lemma_despawned_wf,
    lemma_wf_pointwise, visual_ok,
};
use crate::rng::roll_percent;

verus! {

/// Saturating addition of experience.
pub open spec fn xp_plus(a: u32, b: u32) -> u32 {
    if a + b <= u32::MAX {
        (a + b) as u32
    } else {
        u32::MAX
    }
}

/// Whether orb `i` is collected by the player at `p` this tick: a live
/// experience orb within collection range.
pub open spec fn xp_considers(w: Seq<Entity>, p: int, i: int) -> bool {
    &&& 0 <= i < w.len()
    &&& i != p
    &&& w[i].alive
    &&& w[i].enemy_xp is Some
    &&& w[i].player is None
    &&& dist_sq(w[i].pos, w[p].pos) < HIT_RANGE * HIT_RANGE
}

/// Collecting orb `i`: the player's experience grows by the orb's value
/// and the orb despawns.
pub open spec fn xp_step(w: Seq<Entity>, p: int, i: int) -> Seq<Entity> {
    if xp_considers(w, p, i) {
        let pe = w[p];
        let gained = xp_plus(pe.player_xp->0.xp, w[i].enemy_xp->0.xp);
        despawned(w.update(p, Entity { player_xp: Some(PlayerXp { xp: gained }), ..pe }), i)
    } else {
        w
    }
}

/// The collection pass folded over the first `k` entities.
pub open spec fn xp_fold(w0: Seq<Entity>, p: int, k: nat) -> Seq<Entity>
    decreases k,
{
    if k == 0 {
        w0
    } else {
        xp_step(xp_fold(w0, p, (k - 1) as nat), p, k - 1)
    }
}

/// Collect every experience orb within sixteen units of the player. With
/// no live player (or one without an experience tally) the tick is
/// skipped, never an error.
pub fn xp_collision(w: &mut World)
    requires
        old(w).wf(),
    ensures
        final(w).wf(),
        final(w)@.len() == old(w)@.len(),
        (forall|i: int| !is_live_player(old(w)@, i)) ==> final(w)@ == old(w)@,
        forall|p: int|
            is_live_player(old(w)@, p) && old(w)@[p].player_xp is None ==> final(w)@ == old(
                w,
            )@,
        forall|p: int|
            is_live_player(old(w)@, p) && old(w)@[p].player_xp is Some ==> final(w)@ == xp_fold(
                old(w)@,
                p,
                old(w)@.len(),
            ),
{
    let ghost w0 = w@;
    let p = match w.find_player() {
        Some(p) => p,
        None => {
            return ;
        },
    };
    if w.ents[p].player_xp.is_none() {
        return ;
    }
    let n = w.ents.len();
    let mut i: usize = 0;
    while i < n
        invariant
            world_wf(w0),
            world_wf(w@),
            n == w0.len(),
            w@.len() == n,
            i <= n,
            p < n,
            w@[p as int].player_xp is Some,
            w@ == xp_fold(w0, p as int, i as nat),
        decreases n - i,
    {
        let ghost wpre = w@;
        let ecur = w.ents[i];
        let mut hit = false;
        if i != p && ecur.alive && ecur.enemy_xp.is_some() && ecur.player.is_none() {
            let pe = w.ents[p];
            if overlaps(ecur.pos, pe.pos, HIT_RANGE) {
                hit = true;
                let orb_xp = match ecur.enemy_xp {
                    Some(x) => x.xp,
                    None => 0,
                };
                let cur_xp = match pe.player_xp {
                    Some(x) => x.xp,
                    None => 0,
                };
                let gained = if cur_xp <= u32::MAX - orb_xp {
                    cur_xp + orb_xp
                } else {
                    u32::MAX
                };
                let mut x = pe;
                x.player_xp = Some(PlayerXp { xp: gained });
                w.ents[p] = x;
                proof {
                    assert forall|k: int| 0 <= k < n implies {
                        let a = #[trigger] w@[k];
                        let b = wpre[k];
                        &&& a.parent == b.parent
                        &&& a.alive == b.alive
                        &&& a.visual_child == b.visual_child
                        &&& (a.player is Some <==> b.player is Some)
                        &&& (a.snowball is Some <==> b.snowball is Some)
                        &&& a.bounds_ok()
                    } by {
                        assert(wpre[k].bounds_ok());
                    }
                    lemma_wf_pointwise(wpre, w@);
                }
                w.despawn_recursive(i);
                proof {
                    assert(w@ == xp_step(wpre, p as int, i as int));
                }
            }
        }
        proof {
            if !hit {
                assert(!xp_considers(wpre, p as int, i as int));
                assert(w@ == xp_step(wpre, p as int, i as int));
            }
            assert(w@ == xp_fold(w0, p as int, (i + 1) as nat));
        }
        i += 1;
    }
}

/// Whether pickup `i` is collected by the player at `p` this tick.
pub open spec fn pickup_considers(w: Seq<Entity>, p: int, i: int) -> bool {
    &&& 0 <= i < w.len()
    &&& i != p
    &&& w[i].alive
    &&& w[i].pickup is Some
    &&& w[i].player is None
    &&& dist_sq(w[i].pos, w[p].pos) < HIT_RANGE * HIT_RANGE
}

/// Collecting pickup `i`: the player gains the time-limited powered-up
/// state and a cosmetic blink, and the pickup despawns with its shadow.
pub open spec fn pickup_step(w: Seq<Entity>, p: int, i: int) -> Seq<Entity> {
    if pickup_considers(w, p, i) {
        let pe = w[p];
        despawned(
            w.update(
                p,
                Entity {
                    powered_up: Some(PoweredUp { time_left: POWERUP_DURATION_MS }),
                    blink: Some(Blink { speed: 100 }),
                    ..pe
                },
            ),
            i,
        )
    } else {
        w
    }
}

/// The pickup pass folded over the first `k` entities.
pub open spec fn pickup_fold(w0: Seq<Entity>, p: int, k: nat) -> Seq<Entity>
    decreases k,
{
    if k == 0 {
        w0
    } else {
        pickup_step(pickup_fold(w0, p, (k - 1) as nat), p, k - 1)
    }
}

/// Collect every pickup within sixteen units of the player, granting the
/// powered-up window. With no live player the tick is skipped.
pub fn pickup_colliisions(w: &mut World)
    requires
        old(w).wf(),
    ensures
        final(w).wf(),
        final(w)@.len() == old(w)@.len(),
        (forall|i: int| !is_live_player(old(w)@, i)) ==> final(w)@ == old(w)@,
        forall|p: int|
            is_live_player(old(w)@, p) ==> final(w)@ == pickup_fold(old(w)@, p, old(w)@.len()),
{
    let ghost w0 = w@;
    let p = match w.find_player() {
        Some(p) => p,
        None => {
            return ;
        },
    };
    let n = w.ents.len();
    let mut i: usize = 0;
    while i < n
        invariant
            world_wf(w0),
            world_wf(w@),
            n == w0.len(),
            w@.len() == n,
            i <= n,
            p < n,
            w@ == pickup_fold(w0, p as int, i as nat),
        decreases n - i,
    {
        let ghost wpre = w@;
        let ecur = w.ents[i];
        let mut hit = false;
        if i != p && ecur.alive && ecur.pickup.is_some() && ecur.player.is_none() {
            let pe = w.ents[p];
            if overlaps(ecur.pos, pe.pos, HIT_RANGE) {
                hit = true;
                let mut x = pe;
                x.powered_up = Some(PoweredUp { time_left: POWERUP_DURATION_MS });
                x.blink = Some(Blink { speed: 100 });
                w.ents[p] = x;
                proof {
                    assert forall|k: int| 0 <= k < n implies {
                        let a = #[trigger] w@[k];
                        let b = wpre[k];
                        &&& a.parent == b.parent
                        &&& a.alive == b.alive
                        &&& a.visual_child == b.visual_child
                        &&& (a.player is Some <==> b.player is Some)
                        &&& (a.snowball is Some <==> b.snowball is Some)
                        &&& a.bounds_ok()
                    } by {
                        assert(wpre[k].bounds_ok());
                    }
                    lemma_wf_pointwise(wpre, w@);
                }
                w.despawn_recursive(i);
                proof {
                    assert(w@ == pickup_step(wpre, p as int, i as int));
                }
            }
        }
        proof {
            if !hit {
                assert(!pickup_considers(wpre, p as int, i as int));
                assert(w@ == pickup_step(wpre, p as int, i as int));
            }
            assert(w@ == pickup_fold(w0, p as int, (i + 1) as nat));
        }
        i += 1;
    }
}

/// The damage multiplier an enemy's vulnerability window applies, in
/// percent; one hundred when no window is active.
pub open spec fn vuln_mult(e: Entity) -> int {
    match e.vunerable {
        Some(v) => v.multiplier as int,
        None => 100,
    }
}

/// Whether projectile `pi` hits enemy `ei` this tick: both live, the
/// enemy outside its invincibility window, within sixteen units.
pub open spec fn proj_hit_cond(w: Seq<Entity>, pi: int, ei: int) -> bool {
    &&& 0 <= pi < w.len()
    &&& 0 <= ei < w.len()
    &&& pi != ei
    &&& w[pi].alive
    &&& w[pi].projectile is Some
    &&& !w[pi].enemy
    &&& w[ei].alive
    &&& w[ei].enemy
    &&& w[ei].enemy_health is Some
    &&& w[ei].iframes is None
    &&& dist_sq(w[pi].pos, w[ei].pos) < HIT_RANGE * HIT_RANGE
}

/// What a projectile hit does to entity `j`: the enemy takes the
/// configured damage times its vulnerability multiplier, is knocked back
/// away from the projectile, gains the invincibility window and the
/// pending status-effect flags the draws grant; the projectile spends a
/// pierce charge; the enemy's visual child flashes.
pub open spec fn proj_hit_at(
    w: Seq<Entity>,
    pi: int,
    ei: int,
    j: int,
    stats: PlayerStats,
    d1: i32,
    d2: i32,
) -> Entity {
    let e = w[j];
    if j == ei {
        let dmg = tdiv(stats.damage * vuln_mult(e), 100);
        let h = e.enemy_health->0.health;
        let delta = Vec2 {
            x: (w[ei].pos.x - w[pi].pos.x) as i64,
            y: (w[ei].pos.y - w[pi].pos.y) as i64,
        };
        Entity {
            enemy_health: Some(EnemyHealth { health: clamp_hp(h - dmg) as i64 }),
            knockback: Some(
                Knockback { direction: unit_dir(delta), strength: stats.knockback_strength },
            ),
            iframes: Some(InvincibleTimer { time_left: IFRAME_DURATION_MS }),
            check_freeze: if chance_hits(stats.freeze_chance, d1) {
                true
            } else {
                e.check_freeze
            },
            check_fire: if chance_hits(stats.fire_chance, d2) {
                true
            } else {
                e.check_fire
            },
            ..e
        }
    } else if j == pi {
        match e.projectile {
            Some(pr) => {
                if pr.pierce_amount > 0 {
                    Entity {
                        projectile: Some(
                            Projectile {
                                damage: pr.damage,
                                pierce_amount: (pr.pierce_amount - 1) as i32,
                            },
                        ),
                        ..e
                    }
                } else {
                    e
                }
            },
            None => e,
        }
    } else if w[ei].visual_child == Some(j as usize) && e.alive {
        Entity { flash: Some(FlashingTimer { time_left: FLASH_DURATION_MS }), ..e }
    } else {
        e
    }
}

/// One landed projectile hit: the pointwise effects, and the projectile
/// destroyed (cascading) when its pierce budget was already spent.
pub open spec fn proj_hit_step(
    w: Seq<Entity>,
    pi: int,
    ei: int,
    stats: PlayerStats,
    d1: i32,
    d2: i32,
) -> Seq<Entity> {
    let w1 = Seq::new(w.len(), |j: int| proj_hit_at(w, pi, ei, j, stats, d1, d2));
    if w[pi].projectile->0.pierce_amount > 0 {
        w1
    } else {
        despawned(w1, pi)
    }
}

/// One step of the projectile sweep at flat pair index `k` over an arena
/// of `n` entities: pair `(k / n, k % n)` resolves if it is a hit.
pub open spec fn proj_step(
    w: Seq<Entity>,
    k: int,
    n: int,
    stats: PlayerStats,
    d1: i32,
    d2: i32,
) -> Seq<Entity> {
    let pi = k / n;
    let ei = k % n;
    if proj_hit_cond(w, pi, ei) {
        proj_hit_step(w, pi, ei, stats, d1, d2)
    } else {
        w
    }
}

/// The projectile sweep folded over the first `k` of the `n * n` pairs,
/// consuming one pair of percent draws per pair index.
pub open spec fn proj_fold(
    w0: Seq<Entity>,
    n: int,
    stats: PlayerStats,
    draws: Seq<(i32, i32)>,
    k: nat,
) -> Seq<Entity>
    decreases k,
{
    if k == 0 {
        w0
    } else {
        proj_step(
            proj_fold(w0, n, stats, draws, (k - 1) as nat),
            k - 1,
            n,
            stats,
            draws[k - 1].0,
            draws[k - 1].1,
        )
    }
}

/// The fold reads only the first `k` draws.
proof fn lemma_proj_fold_prefix(
    w0: Seq<Entity>,
    n: int,
    stats: PlayerStats,
    da: Seq<(i32, i32)>,
    db: Seq<(i32, i32)>,
    k: nat,
)
    requires
        forall|m: int| 0 <= m < k ==> da[m] == db[m],
    ensures
        proj_fold(w0, n, stats, da, k) == proj_fold(w0, n, stats, db, k),
    decreases k,
{
    if k > 0 {
        lemma_proj_fold_prefix(w0, n, stats, da, db, (k - 1) as nat);
    }
}

/// One projectile step keeps the arena well formed and its length.
proof fn lemma_proj_step_wf(
    w: Seq<Entity>,
    k: int,
    n: int,
    stats: PlayerStats,
    d1: i32,
    d2: i32,
)
    requires
        world_wf(w),
        stats.wf(),
    ensures
        world_wf(proj_step(w, k, n, stats, d1, d2)),
        proj_step(w, k, n, stats, d1, d2).len() == w.len(),
{
    let pi = k / n;
    let ei = k % n;
    if proj_hit_cond(w, pi, ei) {
        let w1 = Seq::new(w.len(), |j: int| proj_hit_at(w, pi, ei, j, stats, d1, d2));
        assert forall|j: int| 0 <= j < w.len() implies {
            let a = #[trigger] w1[j];
            let b = w[j];
            &&& a.parent == b.parent
            &&& a.alive == b.alive
            &&& a.visual_child == b.visual_child
            &&& (a.player is Some <==> b.player is Some)
            &&& (a.snowball is Some <==> b.snowball is Some)
            &&& a.bounds_ok()
        } by {
            assert(w[j].bounds_ok());
            if j == ei {
                lemma_unit_dir_in_range(
                    Vec2 {
                        x: (w[ei].pos.x - w[pi].pos.x) as i64,
                        y: (w[ei].pos.y - w[pi].pos.y) as i64,
                    },
                );
                assert(0 <= stats.damage * vuln_mult(w[j]) <= 0x80_0000_0000_0000)
                    by (nonlinear_arith)
                    requires
                        0 <= stats.damage <= 0x4000_0000,
                        0 <= vuln_mult(w[j]) <= 10000,
                ;
                lemma_tdiv_bounds(stats.damage * vuln_mult(w[j]), 100, 0x80_0000_0000_0000);
            }
        }
        lemma_wf_pointwise(w, w1);
        if !(w[pi].projectile->0.pierce_amount > 0) {
            lemma_despawned_wf(w1, pi);
        }
    }
}

/// Resolve one landed projectile hit exactly: damage through the
/// vulnerability multiplier, knockback away from the projectile, the
/// invincibility window and flash cue, the chance-gated status-effect
/// request flags, and the pierce charge or destruction of the
/// projectile.
#[verifier::rlimit(100)]
pub fn resolve_projectile_hit(
    w: &mut World,
    pi: usize,
    ei: usize,
    stats: &PlayerStats,
    d1: i32,
    d2: i32,
)
    requires
        old(w).wf(),
        stats.wf(),
        proj_hit_cond(old(w)@, pi as int, ei as int),
    ensures
        final(w).wf(),
        final(w)@.len() == old(w)@.len(),
        final(w)@ == proj_hit_step(old(w)@, pi as int, ei as int, *stats, d1, d2),
{
    let ghost wpre = w@;
    let n = w.ents.len();
    let ep = w.ents[pi];
    let ee = w.ents[ei];
    let mult = match ee.vunerable {
        Some(v) => v.multiplier,
        None => 100,
    };
    proof {
        assert(wpre[ei as int].bounds_ok());
        assert(0 <= stats.damage * mult <= 0x80_0000_0000_0000) by (nonlinear_arith)
            requires
                0 <= stats.damage <= 0x4000_0000,
                0 <= mult <= 10000,
        ;
        lemma_tdiv_bounds(stats.damage as int * mult as int, 100, 0x80_0000_0000_0000);
    }
    let dmg = tdiv_i64(stats.damage * (mult as i64), 100);
    let h = match ee.enemy_health {
        Some(hh) => hh.health,
        None => 0,
    };
    let h1 = clamp_hp_sub(h, dmg);
    let dir = unit_toward(ep.pos, ee.pos);
    let mut x = ee;
    x.enemy_health = Some(EnemyHealth { health: h1 });
    x.knockback = Some(Knockback { direction: dir, strength: stats.knockback_strength });
    x.iframes = Some(InvincibleTimer { time_left: IFRAME_DURATION_MS });
    if stats.freeze_chance >= d1 {
        x.check_freeze = true;
    }
    if stats.fire_chance >= d2 {
        x.check_fire = true;
    }
    w.ents[ei] = x;
    if let Some(c) = ee.visual_child {
        proof {
            assert(visual_ok(wpre, ei as int));
        }
        if c != pi {
            let mut y = w.ents[c];
            if y.alive {
                y.flash = Some(FlashingTimer { time_left: FLASH_DURATION_MS });
                w.ents[c] = y;
            }
        }
    }
    let pr = match ep.projectile {
        Some(pr) => pr,
        None => Projectile { damage: 0, pierce_amount: 0 },
    };
    if pr.pierce_amount > 0 {
        let mut z = w.ents[pi];
        z.projectile = Some(
            Projectile { damage: pr.damage, pierce_amount: pr.pierce_amount - 1 },
        );
        w.ents[pi] = z;
        proof {
            assert(w@ =~= Seq::new(
                wpre.len(),
                |j: int| proj_hit_at(wpre, pi as int, ei as int, j, *stats, d1, d2),
            ));
            assert(w@ == proj_hit_step(wpre, pi as int, ei as int, *stats, d1, d2));
            lemma_proj_hit_wf(wpre, pi as int, ei as int, *stats, d1, d2);
        }
    } else {
        proof {
            assert(w@ =~= Seq::new(
                wpre.len(),
                |j: int| proj_hit_at(wpre, pi as int, ei as int, j, *stats, d1, d2),
            ));
            lemma_proj_pointwise_wf(wpre, pi as int, ei as int, *stats, d1, d2);
        }
        w.despawn_recursive(pi);
        proof {
            assert(w@ == proj_hit_step(wpre, pi as int, ei as int, *stats, d1, d2));
            lemma_proj_hit_wf(wpre, pi as int, ei as int, *stats, d1, d2);
        }
    }
}

/// The pointwise part of a projectile hit keeps the arena well formed.
proof fn lemma_proj_pointwise_wf(
    w: Seq<Entity>,
    pi: int,
    ei: int,
    stats: PlayerStats,
    d1: i32,
    d2: i32,
)
    requires
        world_wf(w),
        stats.wf(),
        proj_hit_cond(w, pi, ei),
    ensures
        world_wf(Seq::new(w.len(), |j: int| proj_hit_at(w, pi, ei, j, stats, d1, d2))),
{
    let w1 = Seq::new(w.len(), |j: int| proj_hit_at(w, pi, ei, j, stats, d1, d2));
    assert forall|j: int| 0 <= j < w.len() implies {
        let a = #[trigger] w1[j];
        let b = w[j];
        &&& a.parent == b.parent
        &&& a.alive == b.alive
        &&& a.visual_child == b.visual_child
        &&& (a.player is Some <==> b.player is Some)
        &&& (a.snowball is Some <==> b.snowball is Some)
        &&& a.bounds_ok()
    } by {
        assert(w[j].bounds_ok());
        if j == ei {
            lemma_unit_dir_in_range(
                Vec2 {
                    x: (w[ei].pos.x - w[pi].pos.x) as i64,
                    y: (w[ei].pos.y - w[pi].pos.y) as i64,
                },
            );
            assert(0 <= stats.damage * vuln_mult(w[j]) <= 0x80_0000_0000_0000)
                by (nonlinear_arith)
                requires
                    0 <= stats.damage <= 0x4000_0000,
                    0 <= vuln_mult(w[j]) <= 10000,
            ;
            lemma_tdiv_bounds(stats.damage * vuln_mult(w[j]), 100, 0x80_0000_0000_0000);
        }
    }
    lemma_wf_pointwise(w, w1);
}

/// A whole projectile hit keeps the arena well formed and its length.
proof fn lemma_proj_hit_wf(
    w: Seq<Entity>,
    pi: int,
    ei: int,
    stats: PlayerStats,
    d1: i32,
    d2: i32,
)
    requires
        world_wf(w),
        stats.wf(),
        proj_hit_cond(w, pi, ei),
    ensures
        world_wf(proj_hit_step(w, pi, ei, stats, d1, d2)),
        proj_hit_step(w, pi, ei, stats, d1, d2).len() == w.len(),
{
    lemma_proj_pointwise_wf(w, pi, ei, stats, d1, d2);
    let w1 = Seq::new(w.len(), |j: int| proj_hit_at(w, pi, ei, j, stats, d1, d2));
    if !(w[pi].projectile->0.pierce_amount > 0) {
        lemma_despawned_wf(w1, pi);
    }
}

/// Pushing one more draw pair keeps the hit-draw range property.
proof fn lemma_proj_draws_push(
    w0: Seq<Entity>,
    nn: int,
    stats: PlayerStats,
    draws: Seq<(i32, i32)>,
    d1: i32,
    d2: i32,
)
    requires
        forall|m: int|
            0 <= m < draws.len() && proj_hit_cond(
                proj_fold(w0, nn, stats, draws, m as nat),
                m / nn,
                m % nn,
            ) ==> 1 <= (#[trigger] draws[m]).0 <= 99 && 1 <= draws[m].1 <= 99,
        proj_hit_cond(
            proj_fold(w0, nn, stats, draws, draws.len()),
            draws.len() as int / nn,
            draws.len() as int % nn,
        ) ==> 1 <= d1 <= 99 && 1 <= d2 <= 99,
    ensures
        ({
            let dnew = draws.push((d1, d2));
            forall|m: int|
                0 <= m < dnew.len() && proj_hit_cond(
                    proj_fold(w0, nn, stats, dnew, m as nat),
                    m / nn,
                    m % nn,
                ) ==> 1 <= (#[trigger] dnew[m]).0 <= 99 && 1 <= dnew[m].1 <= 99
        }),
{
    let dnew = draws.push((d1, d2));
    assert forall|m: int|
        0 <= m < dnew.len() && proj_hit_cond(
            proj_fold(w0, nn, stats, dnew, m as nat),
            m / nn,
            m % nn,
        ) implies 1 <= (#[trigger] dnew[m]).0 <= 99 && 1 <= dnew[m].1 <= 99 by {
        lemma_proj_fold_prefix(w0, nn, stats, draws, dnew, m as nat);
        if m < draws.len() {
        } else {
            assert(m == draws.len());
            assert(dnew[m] == (d1, d2));
        }
    }
}

/// Sweep every projectile across every enemy in pair order, resolving
/// hits exactly as `proj_fold` says for the percent draws rolled; every
/// draw spent on a landed hit is a real percent draw.
pub fn projectiles_collision(w: &mut World, stats: &PlayerStats) -> (draws: Ghost<
    Seq<(i32, i32)>,
>)
    requires
        old(w).wf(),
        stats.wf(),
    ensures
        final(w).wf(),
        final(w)@.len() == old(w)@.len(),
        draws@.len() == old(w)@.len() * old(w)@.len(),
        final(w)@ == proj_fold(
            old(w)@,
            old(w)@.len() as int,
            *stats,
            draws@,
            (old(w)@.len() * old(w)@.len()) as nat,
        ),
        forall|m: int|
            0 <= m < draws@.len() && proj_hit_cond(
                proj_fold(old(w)@, old(w)@.len() as int, *stats, draws@, m as nat),
                m / old(w)@.len() as int,
                m % old(w)@.len() as int,
            ) ==> 1 <= (#[trigger] draws@[m]).0 <= 99 && 1 <= draws@[m].1 <= 99,
{
    let ghost w0 = w@;
    let n = w.ents.len();
    let ghost nn = n as int;
    let mut draws: Ghost<Seq<(i32, i32)>> = Ghost(Seq::empty());
    let mut pi: usize = 0;
    while pi < n
        invariant
            world_wf(w0),
            stats.wf(),
            nn == n as int,
            n == w0.len(),
            w@.len() == n,
            pi <= n,
            world_wf(w@),
            draws@.len() == pi * n,
            w@ == proj_fold(w0, nn, *stats, draws@, (pi * n) as nat),
            forall|m: int|
                0 <= m < draws@.len() && proj_hit_cond(
                    proj_fold(w0, nn, *stats, draws@, m as nat),
                    m / nn,
                    m % nn,
                ) ==> 1 <= (#[trigger] draws@[m]).0 <= 99 && 1 <= draws@[m].1 <= 99,
        decreases n - pi,
    {
        let mut ei: usize = 0;
        proof {
            assert(pi * n + n <= n * n) by (nonlinear_arith)
                requires
                    0 <= pi < n,
            ;
        }
        while ei < n
            invariant
                world_wf(w0),
                stats.wf(),
                nn == n as int,
                n == w0.len(),
                w@.len() == n,
                pi < n,
                ei <= n,
                world_wf(w@),
                draws@.len() == pi * n + ei,
                w@ == proj_fold(w0, nn, *stats, draws@, (pi * n + ei) as nat),
                forall|m: int|
                    0 <= m < draws@.len() && proj_hit_cond(
                        proj_fold(w0, nn, *stats, draws@, m as nat),
                        m / nn,
                        m % nn,
                    ) ==> 1 <= (#[trigger] draws@[m]).0 <= 99 && 1 <= draws@[m].1 <= 99,
            decreases n - ei,
        {
            let ghost wpre = w@;
            let ghost k = pi * n + ei;
            proof {
                assert(k / nn == pi as int && k % nn == ei as int) by (nonlinear_arith)
                    requires
                        nn > 0,
                        0 <= (pi as int) < nn,
                        0 <= (ei as int) < nn,
                        k == (pi as int) * nn + (ei as int),
                ;
            }
            let ep = w.ents[pi];
            let mut d1: i32 = 0;
            let mut d2: i32 = 0;
            let mut hit = false;
            if pi != ei && ep.alive && ep.projectile.is_some() && !ep.enemy {
                let ee = w.ents[ei];
                if ee.alive && ee.enemy && ee.enemy_health.is_some() && ee.iframes.is_none() {
                    if overlaps(ep.pos, ee.pos, HIT_RANGE) {
                        hit = true;
                        d1 = roll_percent();
                        d2 = roll_percent();
                        resolve_projectile_hit(w, pi, ei, stats, d1, d2);
                    }
                }
            }
            proof {
                let dnew = draws@.push((d1, d2));
                lemma_proj_fold_prefix(w0, nn, *stats, draws@, dnew, k as nat);
                if !hit {
                    assert(!proj_hit_cond(wpre, pi as int, ei as int));
                    assert(w@ == proj_step(wpre, k as int, nn, *stats, d1, d2));
                } else {
                    assert(w@ == proj_step(wpre, k as int, nn, *stats, d1, d2));
                }
                assert(w@ == proj_fold(w0, nn, *stats, dnew, (k + 1) as nat));
                lemma_proj_draws_push(w0, nn, *stats, draws@, d1, d2);
            }
            draws = Ghost(draws@.push((d1, d2)));
            ei += 1;
        }
        proof {
            assert(pi * n + n == (pi + 1) * n) by (nonlinear_arith);
        }
        pi += 1;
    }
    proof {
        assert(pi * n == n * n) by (nonlinear_arith)
            requires
                pi == n,
        ;
    }
    draws
}


/// Clamped subtraction for health, with a signed amount.
fn clamp_hp_sub(h: i64, amount: i64) -> (r: i64)
    requires
        -crate::components::HP_CAP <= h <= crate::components::HP_CAP,
        -0x80_0000_0000_0000 <= amount <= 0x80_0000_0000_0000,
    ensures
        r == clamp_hp(h - amount),
{
    let moved = h - amount;
    if moved < -crate::components::HP_CAP {
        -crate::components::HP_CAP
    } else if moved > crate::components::HP_CAP {
        crate::components::HP_CAP
    } else {
        moved
    }
}

/// The world-space position of a shield orbiting the player at `p`: the
/// player's position displaced by the shield's offset (clamped to the
/// world range, as every displacement is).
pub open spec fn shield_world(w: Seq<Entity>, p: int, si: int) -> Vec2 {
    crate::geom::moved_pos(w[p].pos, w[si].pos.x as int, w[si].pos.y as int)
}

/// Whether shield `si` hits enemy `ei` this tick, with the player at `p`.
pub open spec fn shield_hit_cond(w: Seq<Entity>, p: int, si: int, ei: int) -> bool {
    &&& 0 <= si < w.len()
    &&& 0 <= ei < w.len()
    &&& si != ei
    &&& ei != p
    &&& w[si].alive
    &&& w[si].shield is Some
    &&& w[ei].alive
    &&& w[ei].enemy
    &&& w[ei].enemy_health is Some
    &&& w[ei].shield is None
    &&& w[ei].iframes is None
    &&& dist_sq(shield_world(w, p, si), w[ei].pos) < HIT_RANGE * HIT_RANGE
}

/// What a shield hit does to entity `j`: the enemy takes the shield's
/// damage through its vulnerability multiplier, is knocked back away
/// from the player, gains the invincibility window and the flash cue;
/// the status-effect trials run only when the shield-applies-effects
/// upgrade is on. The shield itself is persistent and untouched.
pub open spec fn shield_hit_at(
    w: Seq<Entity>,
    p: int,
    si: int,
    ei: int,
    j: int,
    stats: PlayerStats,
    d1: i32,
    d2: i32,
) -> Entity {
    let e = w[j];
    if j == ei {
        let dmg = tdiv(stats.shield_damage * vuln_mult(e), 100);
        let h = e.enemy_health->0.health;
        let delta = Vec2 {
            x: (w[ei].pos.x - w[p].pos.x) as i64,
            y: (w[ei].pos.y - w[p].pos.y) as i64,
        };
        Entity {
            enemy_health: Some(EnemyHealth { health: clamp_hp(h - dmg) as i64 }),
            knockback: Some(
                Knockback { direction: unit_dir(delta), strength: stats.knockback_strength },
            ),
            iframes: Some(InvincibleTimer { time_left: IFRAME_DURATION_MS }),
            check_freeze: if stats.shield_apply_effects && chance_hits(stats.freeze_chance, d1) {
                true
            } else {
                e.check_freeze
            },
            check_fire: if stats.shield_apply_effects && chance_hits(stats.fire_chance, d2) {
                true
            } else {
                e.check_fire
            },
            ..e
        }
    } else if w[ei].visual_child == Some(j as usize) && e.alive {
        Entity { flash: Some(FlashingTimer { time_left: FLASH_DURATION_MS }), ..e }
    } else {
        e
    }
}

/// One step of the shield sweep at flat pair index `k`.
pub open spec fn shield_step(
    w: Seq<Entity>,
    p: int,
    k: int,
    n: int,
    stats: PlayerStats,
    d1: i32,
    d2: i32,
) -> Seq<Entity> {
    let si = k / n;
    let ei = k % n;
    if shield_hit_cond(w, p, si, ei) {
        Seq::new(w.len(), |j: int| shield_hit_at(w, p, si, ei, j, stats, d1, d2))
    } else {
        w
    }
}

/// The shield sweep folded over the first `k` of the `n * n` pairs.
pub open spec fn shield_fold(
    w0: Seq<Entity>,
    p: int,
    n: int,
    stats: PlayerStats,
    draws: Seq<(i32, i32)>,
    k: nat,
) -> Seq<Entity>
    decreases k,
{
    if k == 0 {
        w0
    } else {
        shield_step(
            shield_fold(w0, p, n, stats, draws, (k - 1) as nat),
            p,
            k - 1,
            n,
            stats,
            draws[k - 1].0,
            draws[k - 1].1,
        )
    }
}

/// The fold reads only the first `k` draws.
proof fn lemma_shield_fold_prefix(
    w0: Seq<Entity>,
    p: int,
    n: int,
    stats: PlayerStats,
    da: Seq<(i32, i32)>,
    db: Seq<(i32, i32)>,
    k: nat,
)
    requires
        forall|m: int| 0 <= m < k ==> da[m] == db[m],
    ensures
        shield_fold(w0, p, n, stats, da, k) == shield_fold(w0, p, n, stats, db, k),
    decreases k,
{
    if k > 0 {
        lemma_shield_fold_prefix(w0, p, n, stats, da, db, (k - 1) as nat);
    }
}

/// A shield hit keeps the arena well formed and its length.
proof fn lemma_shield_hit_wf(
    w: Seq<Entity>,
    p: int,
    si: int,
    ei: int,
    stats: PlayerStats,
    d1: i32,
    d2: i32,
)
    requires
        world_wf(w),
        stats.wf(),
        shield_hit_cond(w, p, si, ei),
    ensures
        world_wf(Seq::new(w.len(), |j: int| shield_hit_at(w, p, si, ei, j, stats, d1, d2))),
{
    let w1 = Seq::new(w.len(), |j: int| shield_hit_at(w, p, si, ei, j, stats, d1, d2));
    assert forall|j: int| 0 <= j < w.len() implies {
        let a = #[trigger] w1[j];
        let b = w[j];
        &&& a.parent == b.parent
        &&& a.alive == b.alive
        &&& a.visual_child == b.visual_child
        &&& (a.player is Some <==> b.player is Some)
        &&& (a.snowball is Some <==> b.snowball is Some)
        &&& a.bounds_ok()
    } by {
        assert(w[j].bounds_ok());
        if j == ei {
            lemma_unit_dir_in_range(
                Vec2 {
                    x: (w[ei].pos.x - w[p].pos.x) as i64,
                    y: (w[ei].pos.y - w[p].pos.y) as i64,
                },
            );
            assert(0 <= stats.shield_damage * vuln_mult(w[j]) <= 0x80_0000_0000_0000)
                by (nonlinear_arith)
                requires
                    0 <= stats.shield_damage <= 0x4000_0000,
                    0 <= vuln_mult(w[j]) <= 10000,
            ;
            lemma_tdiv_bounds(stats.shield_damage * vuln_mult(w[j]), 100, 0x80_0000_0000_0000);
        }
    }
    lemma_wf_pointwise(w, w1);
}

/// Resolve one landed shield hit exactly.
#[verifier::rlimit(100)]
pub fn resolve_shield_hit(
    w: &mut World,
    p: usize,
    si: usize,
    ei: usize,
    stats: &PlayerStats,
    d1: i32,
    d2: i32,
)
    requires
        old(w).wf(),
        stats.wf(),
        p < old(w)@.len(),
        shield_hit_cond(old(w)@, p as int, si as int, ei as int),
    ensures
        final(w).wf(),
        final(w)@.len() == old(w)@.len(),
        final(w)@ == Seq::new(
            old(w)@.len(),
            |j: int| shield_hit_at(old(w)@, p as int, si as int, ei as int, j, *stats, d1, d2),
        ),
{
    let ghost wpre = w@;
    let n = w.ents.len();
    let pe = w.ents[p];
    let ee = w.ents[ei];
    let mult = match ee.vunerable {
        Some(v) => v.multiplier,
        None => 100,
    };
    proof {
        assert(wpre.len() == n as int);
        assert(wpre[ei as int].bounds_ok());
        assert(0 <= stats.shield_damage * mult <= 0x80_0000_0000_0000) by (nonlinear_arith)
            requires
                0 <= stats.shield_damage <= 0x4000_0000,
                0 <= mult <= 10000,
        ;
        lemma_tdiv_bounds(stats.shield_damage as int * mult as int, 100, 0x80_0000_0000_0000);
    }
    let dmg = tdiv_i64(stats.shield_damage * (mult as i64), 100);
    let h = match ee.enemy_health {
        Some(hh) => hh.health,
        None => 0,
    };
    let h1 = clamp_hp_sub(h, dmg);
    let dir = unit_toward(pe.pos, ee.pos);
    let mut x = ee;
    x.enemy_health = Some(EnemyHealth { health: h1 });
    x.knockback = Some(Knockback { direction: dir, strength: stats.knockback_strength });
    x.iframes = Some(InvincibleTimer { time_left: IFRAME_DURATION_MS });
    if stats.shield_apply_effects {
        if stats.freeze_chance >= d1 {
            x.check_freeze = true;
        }
        if stats.fire_chance >= d2 {
            x.check_fire = true;
        }
    }
    w.ents[ei] = x;
    if let Some(c) = ee.visual_child {
        proof {
            assert(visual_ok(wpre, ei as int));
        }
        let mut y = w.ents[c];
        if y.alive {
            y.flash = Some(FlashingTimer { time_left: FLASH_DURATION_MS });
            w.ents[c] = y;
        }
    }
    proof {
        let target = Seq::new(
            wpre.len(),
            |j: int| shield_hit_at(wpre, p as int, si as int, ei as int, j, *stats, d1, d2),
        );
        assert forall|j: int| 0 <= j < wpre.len() implies w@[j] == target[j] by {
            if j == ei as int {
                assert(w@[j] == target[j]);
            } else {
                match wpre[ei as int].visual_child {
                    Some(c) => {
                        if j == c as int {
                            assert(w@[j] == target[j]);
                        } else {
                            assert(w@[j] == wpre[j]);
                            assert(target[j] == wpre[j]);
                            assert(w@[j] == target[j]);
                        }
                    },
                    None => {
                        assert(w@[j] == target[j]);
                    },
                }
            }
        }
        assert(w@ =~= target);
        lemma_shield_hit_wf(wpre, p as int, si as int, ei as int, *stats, d1, d2);
    }
}

/// Pushing one more draw pair keeps the hit-draw range property.
proof fn lemma_shield_draws_push(
    w0: Seq<Entity>,
    p: int,
    nn: int,
    stats: PlayerStats,
    draws: Seq<(i32, i32)>,
    d1: i32,
    d2: i32,
)
    requires
        forall|m: int|
            0 <= m < draws.len() && shield_hit_cond(
                shield_fold(w0, p, nn, stats, draws, m as nat),
                p,
                m / nn,
                m % nn,
            ) ==> 1 <= (#[trigger] draws[m]).0 <= 99 && 1 <= draws[m].1 <= 99,
        shield_hit_cond(
            shield_fold(w0, p, nn, stats, draws, draws.len()),
            p,
            draws.len() as int / nn,
            draws.len() as int % nn,
        ) ==> 1 <= d1 <= 99 && 1 <= d2 <= 99,
    ensures
        ({
            let dnew = draws.push((d1, d2));
            forall|m: int|
                0 <= m < dnew.len() && shield_hit_cond(
                    shield_fold(w0, p, nn, stats, dnew, m as nat),
                    p,
                    m / nn,
                    m % nn,
                ) ==> 1 <= (#[trigger] dnew[m]).0 <= 99 && 1 <= dnew[m].1 <= 99
        }),
{
    let dnew = draws.push((d1, d2));
    assert forall|m: int|
        0 <= m < dnew.len() && shield_hit_cond(
            shield_fold(w0, p, nn, stats, dnew, m as nat),
            p,
            m / nn,
            m % nn,
        ) implies 1 <= (#[trigger] dnew[m]).0 <= 99 && 1 <= dnew[m].1 <= 99 by {
        lemma_shield_fold_prefix(w0, p, nn, stats, draws, dnew, m as nat);
        if m < draws.len() {
        } else {
            assert(m == draws.len());
            assert(dnew[m] == (d1, d2));
        }
    }
}

/// Sweep every orbiting shield across every enemy in pair order. With no
/// live player the tick is skipped. Hits resolve exactly as
/// `shield_fold` says for the percent draws rolled.
pub fn shield_collision(w: &mut World, stats: &PlayerStats) -> (draws: Ghost<Seq<(i32, i32)>>)
    requires
        old(w).wf(),
        stats.wf(),
    ensures
        final(w).wf(),
        final(w)@.len() == old(w)@.len(),
        (forall|i: int| !is_live_player(old(w)@, i)) ==> final(w)@ == old(w)@,
        forall|p: int|
            is_live_player(old(w)@, p) ==> final(w)@ == shield_fold(
                old(w)@,
                p,
                old(w)@.len() as int,
                *stats,
                draws@,
                (old(w)@.len() * old(w)@.len()) as nat,
            ) && draws@.len() == old(w)@.len() * old(w)@.len() && (forall|m: int|
                0 <= m < draws@.len() && shield_hit_cond(
                    shield_fold(old(w)@, p, old(w)@.len() as int, *stats, draws@, m as nat),
                    p,
                    m / old(w)@.len() as int,
                    m % old(w)@.len() as int,
                ) ==> 1 <= (#[trigger] draws@[m]).0 <= 99 && 1 <= draws@[m].1 <= 99),
{
    let ghost w0 = w@;
    let p = match w.find_player() {
        Some(p) => p,
        None => {
            return Ghost(Seq::empty());
        },
    };
    let ghost pp = p as int;
    let n = w.ents.len();
    let ghost nn = n as int;
    let mut draws: Ghost<Seq<(i32, i32)>> = Ghost(Seq::empty());
    let mut si: usize = 0;
    while si < n
        invariant
            world_wf(w0),
            stats.wf(),
            nn == n as int,
            pp == p as int,
            n == w0.len(),
            w@.len() == n,
            si <= n,
            p < n,
            world_wf(w@),
            draws@.len() == si * n,
            w@ == shield_fold(w0, pp, nn, *stats, draws@, (si * n) as nat),
            forall|m: int|
                0 <= m < draws@.len() && shield_hit_cond(
                    shield_fold(w0, pp, nn, *stats, draws@, m as nat),
                    pp,
                    m / nn,
                    m % nn,
                ) ==> 1 <= (#[trigger] draws@[m]).0 <= 99 && 1 <= draws@[m].1 <= 99,
        decreases n - si,
    {
        let mut ei: usize = 0;
        proof {
            assert(si * n + n <= n * n) by (nonlinear_arith)
                requires
                    0 <= si < n,
            ;
        }
        while ei < n
            invariant
                world_wf(w0),
                stats.wf(),
                nn == n as int,
                pp == p as int,
                n == w0.len(),
                w@.len() == n,
                si < n,
                ei <= n,
                p < n,
                world_wf(w@),
                draws@.len() == si * n + ei,
                w@ == shield_fold(w0, pp, nn, *stats, draws@, (si * n + ei) as nat),
                forall|m: int|
                    0 <= m < draws@.len() && shield_hit_cond(
                        shield_fold(w0, pp, nn, *stats, draws@, m as nat),
                        pp,
                        m / nn,
                        m % nn,
                    ) ==> 1 <= (#[trigger] draws@[m]).0 <= 99 && 1 <= draws@[m].1 <= 99,
            decreases n - ei,
        {
            let ghost wpre = w@;
            let ghost k = si * n + ei;
            proof {
                assert(k / nn == si as int && k % nn == ei as int) by (nonlinear_arith)
                    requires
                        nn > 0,
                        0 <= (si as int) < nn,
                        0 <= (ei as int) < nn,
                        k == (si as int) * nn + (ei as int),
                ;
            }
            let es = w.ents[si];
            let mut d1: i32 = 0;
            let mut d2: i32 = 0;
            let mut hit = false;
            if si != ei && ei != p && es.alive && es.shield.is_some() {
                let ee = w.ents[ei];
                if ee.alive && ee.enemy && ee.enemy_health.is_some() && ee.shield.is_none()
                    && ee.iframes.is_none() {
                    let pe = w.ents[p];
                    let spos = crate::geom::move_pos(pe.pos, es.pos.x, es.pos.y);
                    if overlaps(spos, ee.pos, HIT_RANGE) {
                        hit = true;
                        d1 = roll_percent();
                        d2 = roll_percent();
                        resolve_shield_hit(w, p, si, ei, stats, d1, d2);
                    }
                }
            }
            proof {
                let dnew = draws@.push((d1, d2));
                lemma_shield_fold_prefix(w0, pp, nn, *stats, draws@, dnew, k as nat);
                if !hit {
                    assert(!shield_hit_cond(wpre, pp, si as int, ei as int));
                    assert(w@ == shield_step(wpre, pp, k as int, nn, *stats, d1, d2));
                } else {
                    assert(w@ == shield_step(wpre, pp, k as int, nn, *stats, d1, d2));
                }
                assert(w@ == shield_fold(w0, pp, nn, *stats, dnew, (k + 1) as nat));
                lemma_shield_draws_push(w0, pp, nn, *stats, draws@, d1, d2);
            }
            draws = Ghost(draws@.push((d1, d2)));
            ei += 1;
        }
        proof {
            assert(si * n + n == (si + 1) * n) by (nonlinear_arith);
        }
        si += 1;
    }
    proof {
        assert(si * n == n * n) by (nonlinear_arith)
            requires
                si == n,
        ;
    }
    draws
}

/// The world-space position of the snowball hitbox: the player's
/// position displaced by the snowball's offset.
pub open spec fn snowball_world(w: Seq<Entity>, p: int, sb: int) -> Vec2 {
    crate::geom::moved_pos(w[p].pos, w[sb].pos.x as int, w[sb].pos.y as int)
}

/// The snowball's contact radius: its base radius scaled by the visual
/// scale, which itself tracks the player's health.
pub open spec fn snowball_radius(w: Seq<Entity>, sb: int) -> int {
    tdiv(SNOWBALL_BASE_RADIUS * w[sb].snowball->0.scale_pct, 100)
}

/// Whether entity `ei` takes part in the player-contact sweep.
pub open spec fn pc_enemy(w: Seq<Entity>, p: int, sb: int, ei: int) -> bool {
    &&& 0 <= ei < w.len()
    &&& ei != p
    &&& ei != sb
    &&& w[ei].alive
    &&& w[ei].enemy
    &&& w[ei].enemy_health is Some
}

/// Saturating decrement of the live-enemy counter.
pub open spec fn dec_sat(c: int) -> int {
    if c > i32::MIN {
        c - 1
    } else {
        c
    }
}

/// A component-wise halving of a velocity, rounding toward zero.
pub open spec fn halved(v: Vec2) -> Vec2 {
    Vec2 { x: tdiv(v.x as int, 2) as i64, y: tdiv(v.y as int, 2) as i64 }
}

/// One step of the player-contact sweep at enemy `ei`, carrying the
/// live-enemy count.
///
/// An enemy beyond the configurable `max_collision_radius` safety valve
/// is destroyed without reward and uncounted. Within the snowball's
/// contact radius: an un-powered player takes the contact damage, has
/// its velocity halved and gains the invincibility window and flash cue
/// — unless a window is already active — and the enemy is knocked back
/// either way; a powered-up player instead deals the heavy snowball
/// damage and doubled knockback, taking none.
pub open spec fn pc_step(
    w: Seq<Entity>,
    cnt: int,
    p: int,
    sb: int,
    ei: int,
    stats: PlayerStats,
) -> (Seq<Entity>, int) {
    if !pc_enemy(w, p, sb, ei) {
        (w, cnt)
    } else {
        let spos = snowball_world(w, p, sb);
        let d2 = dist_sq(spos, w[ei].pos);
        if d2 > stats.max_collision_radius * stats.max_collision_radius {
            (despawned(w, ei), dec_sat(cnt))
        } else {
            let radius = snowball_radius(w, sb);
            if d2 < radius * radius {
                let dir = unit_dir(
                    Vec2 {
                        x: (w[ei].pos.x - spos.x) as i64,
                        y: (w[ei].pos.y - spos.y) as i64,
                    },
                );
                if w[p].powered_up is None {
                    let w1 = if w[p].iframes is None {
                        w.update(
                            p,
                            Entity {
                                player_health: Some(
                                    PlayerHealth {
                                        hp: clamp_hp(
                                            (match w[p].player_health {
                                                Some(h) => h.hp,
                                                None => 0,
                                            }) - CONTACT_DAMAGE,
                                        ) as i64,
                                    },
                                ),
                                player: match w[p].player {
                                    Some(pl) => Some(Player { velocity: halved(pl.velocity) }),
                                    None => None,
                                },
                                flash: Some(FlashingTimer { time_left: FLASH_DURATION_MS }),
                                iframes: Some(InvincibleTimer { time_left: IFRAME_DURATION_MS }),
                                ..w[p]
                            },
                        )
                    } else {
                        w
                    };
                    (
                        w1.update(
                            ei,
                            Entity {
                                knockback: Some(
                                    Knockback {
                                        direction: dir,
                                        strength: stats.knockback_strength,
                                    },
                                ),
                                ..w1[ei]
                            },
                        ),
                        cnt,
                    )
                } else {
                    let dmg = tdiv(stats.snowball_damage_multiplier * POWERED_BASE_DAMAGE, 100);
                    let h = w[ei].enemy_health->0.health;
                    (
                        w.update(
                            ei,
                            Entity {
                                enemy_health: Some(EnemyHealth { health: clamp_hp(h - dmg) as i64 }),
                                knockback: Some(
                                    Knockback {
                                        direction: dir,
                                        strength: (2 * stats.knockback_strength) as i64,
                                    },
                                ),
                                ..w[ei]
                            },
                        ),
                        cnt,
                    )
                }
            } else {
                (w, cnt)
            }
        }
    }
}

/// The player-contact sweep folded over the first `k` entities.
pub open spec fn pc_fold(
    w0: Seq<Entity>,
    cnt0: int,
    p: int,
    sb: int,
    stats: PlayerStats,
    k: nat,
) -> (Seq<Entity>, int)
    decreases k,
{
    if k == 0 {
        (w0, cnt0)
    } else {
        let prev = pc_fold(w0, cnt0, p, sb, stats, (k - 1) as nat);
        pc_step(prev.0, prev.1, p, sb, k - 1, stats)
    }
}

/// One player-contact step keeps the arena well formed and its length.
proof fn lemma_pc_step_wf(w: Seq<Entity>, cnt: int, p: int, sb: int, ei: int, stats: PlayerStats)
    requires
        world_wf(w),
        stats.wf(),
        0 <= p < w.len(),
        0 <= sb < w.len(),
    ensures
        world_wf(pc_step(w, cnt, p, sb, ei, stats).0),
        pc_step(w, cnt, p, sb, ei, stats).0.len() == w.len(),
{
    if pc_enemy(w, p, sb, ei) {
        let spos = snowball_world(w, p, sb);
        let d2 = dist_sq(spos, w[ei].pos);
        if d2 > stats.max_collision_radius * stats.max_collision_radius {
            lemma_despawned_wf(w, ei);
        } else {
            let radius = snowball_radius(w, sb);
            if d2 < radius * radius {
                let w1 = pc_step(w, cnt, p, sb, ei, stats).0;
                assert forall|j: int| 0 <= j < w.len() implies {
                    let a = #[trigger] w1[j];
                    let b = w[j];
                    &&& a.parent == b.parent
                    &&& a.alive == b.alive
                    &&& a.visual_child == b.visual_child
                    &&& (a.player is Some <==> b.player is Some)
                    &&& (a.snowball is Some <==> b.snowball is Some)
                    &&& a.bounds_ok()
                } by {
                    assert(w[j].bounds_ok());
                    if j == ei || j == p {
                        lemma_unit_dir_in_range(
                            Vec2 {
                                x: (w[ei].pos.x - spos.x) as i64,
                                y: (w[ei].pos.y - spos.y) as i64,
                            },
                        );
                        assert(0 <= stats.snowball_damage_multiplier * POWERED_BASE_DAMAGE
                            <= 0x80_0000_0000_0000) by (nonlinear_arith)
                            requires
                                0 <= stats.snowball_damage_multiplier <= 10000,
                                POWERED_BASE_DAMAGE == 2500,
                        ;
                        lemma_tdiv_bounds(
                            stats.snowball_damage_multiplier * POWERED_BASE_DAMAGE,
                            100,
                            0x80_0000_0000_0000,
                        );
                        match w[p].player {
                            Some(pl) => {
                                lemma_tdiv_bounds(pl.velocity.x as int, 2, 0x4000_0000);
                                lemma_tdiv_bounds(pl.velocity.y as int, 2, 0x4000_0000);
                            },
                            None => {},
                        }
                    }
                }
                lemma_wf_pointwise(w, w1);
            }
        }
    }
}

/// Sweep the player's snowball hitbox across every enemy: the far-range
/// safety despawn, contact damage to the un-powered player, and the
/// powered-up snowball's heavy damage, exactly as `pc_fold` says. With
/// no live player or snowball the tick is skipped. Only the live-enemy
/// count of the population record changes.
#[verifier::rlimit(100)]
pub fn player_collision(w: &mut World, count: &mut EnemyCount, stats: &PlayerStats)
    requires
        old(w).wf(),
        stats.wf(),
    ensures
        final(w).wf(),
        final(w)@.len() == old(w)@.len(),
        final(count).max_enemies == old(count).max_enemies,
        final(count).min_enemies == old(count).min_enemies,
        (forall|i: int| !is_live_player(old(w)@, i)) ==> final(w)@ == old(w)@ && *final(count)
            == *old(count),
        (forall|i: int| !is_live_snowball(old(w)@, i)) ==> final(w)@ == old(w)@ && *final(count)
            == *old(count),
        forall|p: int, sb: int|
            is_live_player(old(w)@, p) && is_live_snowball(old(w)@, sb)
                ==> (final(w)@, final(count).enemy_count as int) == pc_fold(
                old(w)@,
                old(count).enemy_count as int,
                p,
                sb,
                *stats,
                old(w)@.len(),
            ),
{
    let ghost w0 = w@;
    let ghost c0 = count.enemy_count as int;
    let p = match w.find_player() {
        Some(p) => p,
        None => {
            return ;
        },
    };
    let sb = match w.find_snowball() {
        Some(s) => s,
        None => {
            return ;
        },
    };
    let n = w.ents.len();
    let mut ei: usize = 0;
    while ei < n
        invariant
            world_wf(w0),
            stats.wf(),
            n == w0.len(),
            w@.len() == n,
            ei <= n,
            p < n,
            sb < n,
            world_wf(w@),
            w@[sb as int].snowball is Some,
            count.max_enemies == old(count).max_enemies,
            count.min_enemies == old(count).min_enemies,
            c0 == old(count).enemy_count as int,
            (w@, count.enemy_count as int) == pc_fold(w0, c0, p as int, sb as int, *stats, ei as nat),
        decreases n - ei,
    {
        let ghost wpre = w@;
        let ghost cpre = count.enemy_count as int;
        let ee = w.ents[ei];
        if ei != p && ei != sb && ee.alive && ee.enemy && ee.enemy_health.is_some() {
            let pe = w.ents[p];
            let se = w.ents[sb];
            let spos = crate::geom::move_pos(pe.pos, se.pos.x, se.pos.y);
            let d2 = crate::geom::dist_sq_exec(spos, ee.pos);
            let maxr = stats.max_collision_radius as u64;
            proof {
                assert(maxr * maxr <= 0x8000_0000u64 * 0x8000_0000u64) by (nonlinear_arith)
                    requires
                        0 <= maxr <= 0x8000_0000u64,
                ;
                assert(0x8000_0000u64 * 0x8000_0000u64 == 0x4000_0000_0000_0000u64);
            }
            if d2 > maxr * maxr {
                count.enemy_count = crate::components::dec_count(count.enemy_count);
                w.despawn_recursive(ei);
                proof {
                    assert((w@, count.enemy_count as int) == pc_step(
                        wpre,
                        cpre,
                        p as int,
                        sb as int,
                        ei as int,
                        *stats,
                    ));
                }
            } else {
                let scale = match se.snowball {
                    Some(s) => s.scale_pct,
                    None => 100,
                };
                proof {
                    assert(wpre[sb as int].bounds_ok());
                    assert(0 <= SNOWBALL_BASE_RADIUS * scale <= 256000 * 0x8_0000)
                        by (nonlinear_arith)
                        requires
                            1 <= scale <= 0x8_0000,
                            SNOWBALL_BASE_RADIUS == 256000,
                    ;
                    vstd::arithmetic::div_mod::lemma_div_is_ordered(
                        SNOWBALL_BASE_RADIUS as int * scale as int,
                        (256000 * 0x8_0000) as int,
                        100,
                    );
                    vstd::arithmetic::div_mod::lemma_div_pos_is_pos(
                        SNOWBALL_BASE_RADIUS as int * scale as int,
                        100,
                    );
                    assert(((256000 * 0x8_0000) as int) / (100 as int) <= 0x8000_0000);
                }
                let radius = tdiv_i64(SNOWBALL_BASE_RADIUS * scale, 100);
                let r = radius as u64;
                proof {
                    assert(r * r <= 0x8000_0000u64 * 0x8000_0000u64) by (nonlinear_arith)
                        requires
                            0 <= r <= 0x8000_0000u64,
                    ;
                    assert(0x8000_0000u64 * 0x8000_0000u64 == 0x4000_0000_0000_0000u64);
                }
                if d2 < r * r {
                    let dir = unit_toward(spos, ee.pos);
                    let powered = pe.powered_up.is_some();
                    if !powered {
                        if pe.iframes.is_none() {
                            let hp = match pe.player_health {
                                Some(h) => h.hp,
                                None => 0,
                            };
                            proof {
                                assert(wpre[p as int].bounds_ok());
                            }
                            let hp1 = clamp_hp_sub(hp, CONTACT_DAMAGE);
                            let mut x = pe;
                            x.player_health = Some(PlayerHealth { hp: hp1 });
                            x.player = match pe.player {
                                Some(pl) => {
                                    proof {
                                        lemma_tdiv_bounds(pl.velocity.x as int, 2, 0x4000_0000);
                                        lemma_tdiv_bounds(pl.velocity.y as int, 2, 0x4000_0000);
                                    }
                                    Some(
                                        Player {
                                            velocity: Vec2 {
                                                x: tdiv_i64(pl.velocity.x, 2),
                                                y: tdiv_i64(pl.velocity.y, 2),
                                            },
                                        },
                                    )
                                },
                                None => None,
                            };
                            x.flash = Some(FlashingTimer { time_left: FLASH_DURATION_MS });
                            x.iframes = Some(InvincibleTimer { time_left: IFRAME_DURATION_MS });
                            w.ents[p] = x;
                        }
                        let mut y = w.ents[ei];
                        y.knockback = Some(
                            Knockback { direction: dir, strength: stats.knockback_strength },
                        );
                        w.ents[ei] = y;
                        proof {
                            assert((w@, count.enemy_count as int) == pc_step(
                                wpre,
                                cpre,
                                p as int,
                                sb as int,
                                ei as int,
                                *stats,
                            ));
                        }
                    } else {
                        proof {
                            assert(0 <= stats.snowball_damage_multiplier * POWERED_BASE_DAMAGE
                                <= 0x80_0000_0000_0000) by (nonlinear_arith)
                                requires
                                    0 <= stats.snowball_damage_multiplier <= 10000,
                                    POWERED_BASE_DAMAGE == 2500,
                            ;
                            lemma_tdiv_bounds(
                                stats.snowball_damage_multiplier as int * POWERED_BASE_DAMAGE as int,
                                100,
                                0x80_0000_0000_0000,
                            );
                            assert(wpre[ei as int].bounds_ok());
                        }
                        let dmg = tdiv_i64(stats.snowball_damage_multiplier * POWERED_BASE_DAMAGE, 100);
                        let h = match ee.enemy_health {
                            Some(hh) => hh.health,
                            None => 0,
                        };
                        let h1 = clamp_hp_sub(h, dmg);
                        let mut y = w.ents[ei];
                        y.enemy_health = Some(EnemyHealth { health: h1 });
                        y.knockback = Some(
                            Knockback { direction: dir, strength: 2 * stats.knockback_strength },
                        );
                        w.ents[ei] = y;
                        proof {
                            assert((w@, count.enemy_count as int) == pc_step(
                                wpre,
                                cpre,
                                p as int,
                                sb as int,
                                ei as int,
                                *stats,
                            ));
                        }
                    }
                } else {
                    proof {
                        assert((w@, count.enemy_count as int) == pc_step(
                            wpre,
                            cpre,
                            p as int,
                            sb as int,
                            ei as int,
                            *stats,
                        ));
                    }
                }
            }
        } else {
            proof {
                assert(!pc_enemy(wpre, p as int, sb as int, ei as int));
            }
        }
        proof {
            lemma_pc_step_wf(wpre, cpre, p as int, sb as int, ei as int, *stats);
            assert((w@, count.enemy_count as int) == pc_fold(
                w0,
                c0,
                p as int,
                sb as int,
                *stats,
                (ei + 1) as nat,
            ));
        }
        ei += 1;
    }
}

/// Whether enemies `a` and `b` (in arena order) are overlapping and get
/// separated this tick. Exactly coincident enemies give no direction to
/// push along and are left as they are.
pub open spec fn sep_cond(w: Seq<Entity>, a: int, b: int) -> bool {
    &&& 0 <= a < w.len()
    &&& 0 <= b < w.len()
    &&& a < b
    &&& w[a].alive
    &&& w[b].alive
    &&& w[a].enemy
    &&& w[b].enemy
    &&& 0 < dist_sq(w[a].pos, w[b].pos)
    &&& dist_sq(w[a].pos, w[b].pos) < HIT_RANGE * HIT_RANGE
}

/// The displacement applied to `a` (and, negated, to `b`): half the
/// overlap depth along the line between their centres.
pub open spec fn sep_push(w: Seq<Entity>, a: int, b: int) -> (int, int) {
    let d2 = dist_sq(w[a].pos, w[b].pos);
    let dist = crate::geom::sqrt_floor(d2 as nat) as int;
    let push = (HIT_RANGE - dist) / 2;
    (
        tdiv((w[a].pos.x - w[b].pos.x) * push, dist),
        tdiv((w[a].pos.y - w[b].pos.y) * push, dist),
    )
}

/// One step of the symmetric separation sweep at flat pair index `k`.
pub open spec fn sep_step(w: Seq<Entity>, k: int, n: int) -> Seq<Entity> {
    let a = k / n;
    let b = k % n;
    if sep_cond(w, a, b) {
        let push = sep_push(w, a, b);
        w.update(a, Entity { pos: crate::geom::moved_pos(w[a].pos, push.0, push.1), ..w[a] })
            .update(
            b,
            Entity { pos: crate::geom::moved_pos(w[b].pos, -push.0, -push.1), ..w[b] },
        )
    } else {
        w
    }
}

/// The separation sweep folded over the first `k` of the `n * n` pairs.
pub open spec fn sep_fold(w0: Seq<Entity>, n: int, k: nat) -> Seq<Entity>
    decreases k,
{
    if k == 0 {
        w0
    } else {
        sep_step(sep_fold(w0, n, (k - 1) as nat), k - 1, n)
    }
}

/// The separation displacement never exceeds half the overlap range.
proof fn lemma_sep_push_bounds(w: Seq<Entity>, a: int, b: int)
    requires
        sep_cond(w, a, b),
    ensures
        -HIT_RANGE <= sep_push(w, a, b).0 <= HIT_RANGE,
        -HIT_RANGE <= sep_push(w, a, b).1 <= HIT_RANGE,
{
    let d2 = dist_sq(w[a].pos, w[b].pos);
    let dist = crate::geom::sqrt_floor(d2 as nat) as int;
    crate::geom::lemma_sqrt_floor_bracket(d2 as nat);
    if dist == 0 {
        assert((crate::geom::sqrt_floor(d2 as nat) + 1) * (crate::geom::sqrt_floor(d2 as nat)
            + 1) == 1) by (nonlinear_arith)
            requires
                crate::geom::sqrt_floor(d2 as nat) == 0,
        ;
    }
    assert(dist >= 1);
    assert(dist < HIT_RANGE) by (nonlinear_arith)
        requires
            dist * dist <= d2,
            d2 < HIT_RANGE * HIT_RANGE,
            0 <= dist,
            0 < HIT_RANGE,
    ;
    let push = (HIT_RANGE - dist) / 2;
    assert(0 <= push <= HIT_RANGE);
    crate::geom::lemma_component_le_len(
        w[a].pos.x - w[b].pos.x,
        w[a].pos.y - w[b].pos.y,
        dist as nat,
    );
    crate::geom::lemma_component_le_len(
        w[a].pos.y - w[b].pos.y,
        w[a].pos.x - w[b].pos.x,
        dist as nat,
    );
    crate::geom::lemma_tdiv_mul_le(w[a].pos.x - w[b].pos.x, push, dist);
    crate::geom::lemma_tdiv_mul_le(w[a].pos.y - w[b].pos.y, push, dist);
}

/// One separation step keeps the arena well formed and its length.
proof fn lemma_sep_step_wf(w: Seq<Entity>, k: int, n: int)
    requires
        world_wf(w),
    ensures
        world_wf(sep_step(w, k, n)),
        sep_step(w, k, n).len() == w.len(),
{
    let a = k / n;
    let b = k % n;
    if sep_cond(w, a, b) {
        lemma_sep_push_bounds(w, a, b);
        let w1 = sep_step(w, k, n);
        assert forall|j: int| 0 <= j < w.len() implies {
            let x = #[trigger] w1[j];
            let y = w[j];
            &&& x.parent == y.parent
            &&& x.alive == y.alive
            &&& x.visual_child == y.visual_child
            &&& (x.player is Some <==> y.player is Some)
            &&& (x.snowball is Some <==> y.snowball is Some)
            &&& x.bounds_ok()
        } by {
            assert(w[j].bounds_ok());
        }
        lemma_wf_pointwise(w, w1);
    }
}

/// Symmetric enemy separation: overlapping enemies are pushed apart
/// equally along the line connecting their centres by half the overlap
/// depth each, with no damage or state change, exactly as `sep_fold`
/// says over pairs in arena order.
#[verifier::rlimit(100)]
pub fn enemy_collision(w: &mut World)
    requires
        old(w).wf(),
    ensures
        final(w).wf(),
        final(w)@.len() == old(w)@.len(),
        final(w)@ == sep_fold(old(w)@, old(w)@.len() as int, (old(w)@.len() * old(w)@.len()) as nat),
{
    let ghost w0 = w@;
    let n = w.ents.len();
    let ghost nn = n as int;
    let mut a: usize = 0;
    while a < n
        invariant
            world_wf(w0),
            nn == n as int,
            n == w0.len(),
            w@.len() == n,
            a <= n,
            world_wf(w@),
            w@ == sep_fold(w0, nn, (a * n) as nat),
        decreases n - a,
    {
        let mut b: usize = 0;
        proof {
            assert(a * n + n <= n * n) by (nonlinear_arith)
                requires
                    0 <= a < n,
            ;
        }
        while b < n
            invariant
                world_wf(w0),
                nn == n as int,
                n == w0.len(),
                w@.len() == n,
                a < n,
                b <= n,
                world_wf(w@),
                w@ == sep_fold(w0, nn, (a * n + b) as nat),
            decreases n - b,
        {
            let ghost wpre = w@;
            let ghost k = a * n + b;
            proof {
                assert(k / nn == a as int && k % nn == b as int) by (nonlinear_arith)
                    requires
                        nn > 0,
                        0 <= (a as int) < nn,
                        0 <= (b as int) < nn,
                        k == (a as int) * nn + (b as int),
                ;
            }
            if a < b {
                let ea = w.ents[a];
                let eb = w.ents[b];
                if ea.alive && eb.alive && ea.enemy && eb.enemy {
                    let d2 = crate::geom::dist_sq_exec(ea.pos, eb.pos);
                    let t = HIT_RANGE as u64;
                    proof {
                        assert(t * t == 409600u64 * 409600u64);
                    }
                    if 0 < d2 && d2 < t * t {
                        let dist = crate::geom::isqrt(d2);
                        proof {
                            crate::geom::lemma_sqrt_floor_bracket(d2 as nat);
                            assert(dist * dist <= d2);
                            assert(dist < t) by (nonlinear_arith)
                                requires
                                    dist * dist <= d2,
                                    d2 < t * t,
                                    0 <= dist,
                                    0 < t,
                            ;
                            if dist == 0 {
                                assert((crate::geom::sqrt_floor(d2 as nat) + 1) * (
                                crate::geom::sqrt_floor(d2 as nat) + 1) == 1) by (nonlinear_arith)
                                    requires
                                        crate::geom::sqrt_floor(d2 as nat) == 0,
                                ;
                            }
                            assert(dist >= 1);
                            crate::geom::lemma_component_le_len(
                                ea.pos.x - eb.pos.x,
                                ea.pos.y - eb.pos.y,
                                dist as nat,
                            );
                            crate::geom::lemma_component_le_len(
                                ea.pos.y - eb.pos.y,
                                ea.pos.x - eb.pos.x,
                                dist as nat,
                            );
                        }
                        let push = (HIT_RANGE - (dist as i64)) / 2;
                        proof {
                            assert(-0x2_0000_0000_0000 <= (ea.pos.x - eb.pos.x) * push
                                <= 0x2_0000_0000_0000) by (nonlinear_arith)
                                requires
                                    -0x8000_0000 <= ea.pos.x - eb.pos.x <= 0x8000_0000,
                                    0 <= push <= 0x4_0000,
                            ;
                            assert(-0x2_0000_0000_0000 <= (ea.pos.y - eb.pos.y) * push
                                <= 0x2_0000_0000_0000) by (nonlinear_arith)
                                requires
                                    -0x8000_0000 <= ea.pos.y - eb.pos.y <= 0x8000_0000,
                                    0 <= push <= 0x4_0000,
                            ;
                            crate::geom::lemma_tdiv_mul_le(
                                ea.pos.x - eb.pos.x,
                                push as int,
                                dist as int,
                            );
                            crate::geom::lemma_tdiv_mul_le(
                                ea.pos.y - eb.pos.y,
                                push as int,
                                dist as int,
                            );
                        }
                        let dx = tdiv_i64((ea.pos.x - eb.pos.x) * push, dist as i64);
                        let dy = tdiv_i64((ea.pos.y - eb.pos.y) * push, dist as i64);
                        let mut xa = ea;
                        xa.pos = crate::geom::move_pos(ea.pos, dx, dy);
                        w.ents[a] = xa;
                        let mut xb = eb;
                        xb.pos = crate::geom::move_pos(eb.pos, -dx, -dy);
                        w.ents[b] = xb;
                        proof {
                            assert(w@ =~= sep_step(wpre, k as int, nn));
                        }
                    }
                }
            }
            proof {
                assert(w@ == sep_step(wpre, k as int, nn));
                lemma_sep_step_wf(wpre, k as int, nn);
                assert(w@ == sep_fold(w0, nn, (k + 1) as nat));
            }
            b += 1;
        }
        proof {
            assert(a * n + n == (a + 1) * n) by (nonlinear_arith);
        }
        a += 1;
    }
    proof {
        assert(a * n == n * n) by (nonlinear_arith)
            requires
                a == n,
        ;
    }
}

/// One landed hit spends exactly one pierce charge while charges remain,
/// and destroys the projectile exactly when they were already spent.
pub proof fn lemma_pierce_step(w: Seq<Entity>, pi: int, ei: int, stats: PlayerStats, d1: i32, d2: i32)
    requires
        proj_hit_cond(w, pi, ei),
    ensures
        ({
            let w1 = proj_hit_step(w, pi, ei, stats, d1, d2);
            &&& w[pi].projectile->0.pierce_amount > 0 ==> w1[pi].alive == w[pi].alive && w1[pi].projectile
                == Some(
                Projectile {
                    damage: w[pi].projectile->0.damage,
                    pierce_amount: (w[pi].projectile->0.pierce_amount - 1) as i32,
                },
            )
            &&& w[pi].projectile->0.pierce_amount <= 0 ==> !w1[pi].alive
        }),
{
    let w1 = proj_hit_step(w, pi, ei, stats, d1, d2);
    let applied = Seq::new(w.len(), |j: int| proj_hit_at(w, pi, ei, j, stats, d1, d2));
    assert(applied[pi] == proj_hit_at(w, pi, ei, pi, stats, d1, d2));
    if !(w[pi].projectile->0.pierce_amount > 0) {
        assert(crate::world::is_desc(applied, pi, pi));
    }
}

/// A chain of landed hits on one projectile: each step resolves a hit on
/// the enemy the chain names, with the draws it names.
pub open spec fn hit_chain(
    w: Seq<Entity>,
    pi: int,
    hits: Seq<(int, i32, i32)>,
    stats: PlayerStats,
) -> Seq<Entity>
    decreases hits.len(),
{
    if hits.len() == 0 {
        w
    } else {
        hit_chain(
            proj_hit_step(w, pi, hits[0].0, stats, hits[0].1, hits[0].2),
            pi,
            hits.drop_first(),
            stats,
        )
    }
}

/// Whether every hit of the chain really lands in its turn.
pub open spec fn chain_ok(
    w: Seq<Entity>,
    pi: int,
    hits: Seq<(int, i32, i32)>,
    stats: PlayerStats,
) -> bool
    decreases hits.len(),
{
    hits.len() == 0 || (proj_hit_cond(w, pi, hits[0].0) && chain_ok(
        proj_hit_step(w, pi, hits[0].0, stats, hits[0].1, hits[0].2),
        pi,
        hits.drop_first(),
        stats,
    ))
}

/// Pierce accounting: a projectile with a pierce budget of `n` charges
/// survives its first `n` landed hits — exactly one charge spent per hit
/// — and destroys itself exactly on hit `n + 1`, not before.
pub proof fn lemma_pierce_accounting(
    w: Seq<Entity>,
    pi: int,
    hits: Seq<(int, i32, i32)>,
    stats: PlayerStats,
)
    requires
        chain_ok(w, pi, hits, stats),
        hits.len() > 0,
        w[pi].projectile matches Some(pr) && pr.pierce_amount >= 0,
        hits.len() <= w[pi].projectile->0.pierce_amount + 1,
    ensures
        ({
            let n0 = w[pi].projectile->0.pierce_amount as int;
            let wk = hit_chain(w, pi, hits, stats);
            &&& hits.len() <= n0 ==> wk[pi].alive && wk[pi].projectile->0.pierce_amount == n0
                - hits.len()
            &&& hits.len() == n0 + 1 ==> !wk[pi].alive
        }),
    decreases hits.len(),
{
    let n0 = w[pi].projectile->0.pierce_amount as int;
    let w1 = proj_hit_step(w, pi, hits[0].0, stats, hits[0].1, hits[0].2);
    lemma_pierce_step(w, pi, hits[0].0, stats, hits[0].1, hits[0].2);
    if hits.len() == 1 {
        if n0 == 0 {
            assert(!w1[pi].alive);
        }
    } else {
        assert(n0 > 0) by {
            if n0 == 0 {
                assert(!w1[pi].alive);
                assert(chain_ok(w1, pi, hits.drop_first(), stats));
                assert(proj_hit_cond(w1, pi, hits.drop_first()[0].0));
            }
        }
        lemma_pierce_accounting(w1, pi, hits.drop_first(), stats);
    }
}

/// Invincibility gating, first half: a landed hit installs the full
/// invincibility window on the enemy, and no projectile can hit it again
/// while any window is active — the hit condition demands a bare enemy.
pub proof fn lemma_invincibility_installed(
    w: Seq<Entity>,
    pi: int,
    ei: int,
    stats: PlayerStats,
    d1: i32,
    d2: i32,
)
    requires
        proj_hit_cond(w, pi, ei),
    ensures
        ({
            let w1 = proj_hit_step(w, pi, ei, stats, d1, d2);
            &&& w1[ei].iframes == Some(InvincibleTimer { time_left: IFRAME_DURATION_MS })
            &&& forall|pj: int| !proj_hit_cond(w1, pj, ei)
        }),
{
    let w1 = proj_hit_step(w, pi, ei, stats, d1, d2);
    let applied = Seq::new(w.len(), |j: int| proj_hit_at(w, pi, ei, j, stats, d1, d2));
    assert(applied[ei] == proj_hit_at(w, pi, ei, ei, stats, d1, d2));
    assert(w1[ei].iframes == Some(InvincibleTimer { time_left: IFRAME_DURATION_MS }));
}

/// Invincibility gating, second half: while an enemy's window is active,
/// any hit landing elsewhere leaves its health and window untouched, so
/// an enemy hit by two projectiles within less than the window's
/// duration takes damage exactly once.
pub proof fn lemma_invincibility_guards(
    w: Seq<Entity>,
    pj: int,
    ej: int,
    ei: int,
    stats: PlayerStats,
    d1: i32,
    d2: i32,
)
    requires
        proj_hit_cond(w, pj, ej),
        0 <= ei < w.len(),
        w[ei].iframes is Some,
    ensures
        ({
            let w1 = proj_hit_step(w, pj, ej, stats, d1, d2);
            &&& w1[ei].iframes == w[ei].iframes
            &&& w1[ei].enemy_health == w[ei].enemy_health
        }),
{
    let w1 = proj_hit_step(w, pj, ej, stats, d1, d2);
    let applied = Seq::new(w.len(), |j: int| proj_hit_at(w, pj, ej, j, stats, d1, d2));
    assert(applied[ei] == proj_hit_at(w, pj, ej, ei, stats, d1, d2));
    assert(ej != ei);
}

/// Invincibility gating, third half: the window only leaves after its
/// full duration of ticks — a countdown with time left beyond this tick
/// stays active.
pub proof fn lemma_invincibility_survives_tick(e: Entity, dt: u32)
    requires
        e.alive,
        e.iframes matches Some(t) && t.time_left > dt,
    ensures
        crate::lifecycle::inv_step(e, dt).iframes == Some(
            InvincibleTimer { time_left: (e.iframes->0.time_left - dt) as u32 },
        ),
{
}

} // verus!
