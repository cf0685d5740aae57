//! Lifecycle systems: invincibility and flash countdowns, timed
//! self-destruction, the powered-up window, death and upgrade
//! transitions, chase movement, and the bulk cleanup passes that clear
//! transient entities when the combat scope is exited.

use vstd::prelude::*;
use crate::geom::{
    Vec2, dist_sq, tdiv, tdiv_i64, unit_dir, unit_toward, lemma_unit_dir_in_range,
    lemma_tdiv_mul_le, lemma_tdiv_bounds, DIR_ONE, DISP_LIMIT, COORD_UNIT,
};
use crate::components::{
    InvincibleTimer, FlashingTimer, DestroyAfter, PoweredUp, Blink, PlayerHealth, PlayerXp,
    PlayerSnowball, EnemyXp, ChasePlayer, EnemyHealth, EnemyCount, PlayerStats, AppState,
    GameState, Status, ticked, tick_ms, clamp_hp, hp_add, dec_count, KILL_HEAL, XP_PER_ORB,
    XP_REQUIREMENT_STEP, POWERUP_DURATION_MS, SCALE_CAP, DT_LIMIT_MS,
};
use crate::world::{
    Entity, World, world_wf, blank_at, make_blank, despawned, is_live_player, is_live_snowball,
    lemma_despawned_wf, lemma_wf_pointwise, lemma_push_root_wf,
};
use crate::combat::dec_sat;

verus! {

/// One invincibility tick: the window counts down and self-removes at
/// zero.
pub open spec fn inv_step(e: Entity, dt: u32) -> Entity {
    match e.iframes {
        Some(t) => {
            if e.alive {
                let nd = ticked(t.time_left, dt);
                Entity {
                    iframes: if nd == 0 {
                        None
                    } else {
                        Some(InvincibleTimer { time_left: nd })
                    },
                    ..e
                }
            } else {
                e
            }
        },
        None => e,
    }
}

/// Tick every invincibility window.
pub fn invincible(w: &mut World, dt: u32)
    requires
        old(w).wf(),
    ensures
        final(w).wf(),
        final(w)@.len() == old(w)@.len(),
        forall|i: int| 0 <= i < old(w)@.len() ==> final(w)@[i] == inv_step(old(w)@[i], dt),
{
    let ghost w0 = w@;
    let n = w.ents.len();
    let mut j: usize = 0;
    while j < n
        invariant
            world_wf(w0),
            n == w0.len(),
            w@.len() == n,
            j <= n,
            forall|k: int| 0 <= k < j ==> w@[k] == inv_step(#[trigger] w0[k], dt),
            forall|k: int| j <= k < n ==> w@[k] == w0[k],
        decreases n - j,
    {
        let e = w.ents[j];
        if e.alive {
            if let Some(t) = e.iframes {
                let nd = tick_ms(t.time_left, dt);
                let mut x = e;
                x.iframes = if nd == 0 {
                    None
                } else {
                    Some(InvincibleTimer { time_left: nd })
                };
                w.ents[j] = x;
            }
        }
        j += 1;
    }
    proof {
        assert forall|k: int| 0 <= k < n implies {
            let a = #[trigger] w@[k];
            let b = w0[k];
            &&& a.parent == b.parent
            &&& a.alive == b.alive
            &&& a.visual_child == b.visual_child
            &&& (a.player is Some <==> b.player is Some)
            &&& (a.snowball is Some <==> b.snowball is Some)
            &&& a.bounds_ok()
        } by {
            assert(w0[k].bounds_ok());
            assert(w@[k] == inv_step(w0[k], dt));
        }
        lemma_wf_pointwise(w0, w@);
    }
}

/// One flash-cue tick: the cue counts down and self-removes at zero,
/// when the renderer returns the sprite to its normal tint.
pub open spec fn flash_step(e: Entity, dt: u32) -> Entity {
    match e.flash {
        Some(t) => {
            if e.alive {
                let nd = ticked(t.time_left, dt);
                Entity {
                    flash: if nd == 0 {
                        None
                    } else {
                        Some(FlashingTimer { time_left: nd })
                    },
                    ..e
                }
            } else {
                e
            }
        },
        None => e,
    }
}

/// Tick every flash cue.
pub fn flashing(w: &mut World, dt: u32)
    requires
        old(w).wf(),
    ensures
        final(w).wf(),
        final(w)@.len() == old(w)@.len(),
        forall|i: int| 0 <= i < old(w)@.len() ==> final(w)@[i] == flash_step(old(w)@[i], dt),
{
    let ghost w0 = w@;
    let n = w.ents.len();
    let mut j: usize = 0;
    while j < n
        invariant
            world_wf(w0),
            n == w0.len(),
            w@.len() == n,
            j <= n,
            forall|k: int| 0 <= k < j ==> w@[k] == flash_step(#[trigger] w0[k], dt),
            forall|k: int| j <= k < n ==> w@[k] == w0[k],
        decreases n - j,
    {
        let e = w.ents[j];
        if e.alive {
            if let Some(t) = e.flash {
                let nd = tick_ms(t.time_left, dt);
                let mut x = e;
                x.flash = if nd == 0 {
                    None
                } else {
                    Some(FlashingTimer { time_left: nd })
                };
                w.ents[j] = x;
            }
        }
        j += 1;
    }
    proof {
        assert forall|k: int| 0 <= k < n implies {
            let a = #[trigger] w@[k];
            let b = w0[k];
            &&& a.parent == b.parent
            &&& a.alive == b.alive
            &&& a.visual_child == b.visual_child
            &&& (a.player is Some <==> b.player is Some)
            &&& (a.snowball is Some <==> b.snowball is Some)
            &&& a.bounds_ok()
        } by {
            assert(w0[k].bounds_ok());
            assert(w@[k] == flash_step(w0[k], dt));
        }
        lemma_wf_pointwise(w0, w@);
    }
}

/// One timed-destruction step at entity `i`: the countdown ticks, and at
/// zero the entity despawns, cascading to its children.
pub open spec fn da_step(w: Seq<Entity>, i: int, dt: u32) -> Seq<Entity> {
    if 0 <= i < w.len() && w[i].alive && w[i].destroy_after is Some {
        let nd = ticked(w[i].destroy_after->0.duration, dt);
        let w1 = w.update(i, Entity { destroy_after: Some(DestroyAfter { duration: nd }), ..w[i] });
        if nd == 0 {
            despawned(w1, i)
        } else {
            w1
        }
    } else {
        w
    }
}

/// The timed-destruction pass folded over the first `k` entities.
pub open spec fn da_fold(w0: Seq<Entity>, k: nat, dt: u32) -> Seq<Entity>
    decreases k,
{
    if k == 0 {
        w0
    } else {
        da_step(da_fold(w0, (k - 1) as nat, dt), k - 1, dt)
    }
}

/// One timed-destruction step keeps the arena well formed and its length.
proof fn lemma_da_step_wf(w: Seq<Entity>, i: int, dt: u32)
    requires
        world_wf(w),
    ensures
        world_wf(da_step(w, i, dt)),
        da_step(w, i, dt).len() == w.len(),
{
    if 0 <= i < w.len() && w[i].alive && w[i].destroy_after is Some {
        let nd = ticked(w[i].destroy_after->0.duration, dt);
        let w1 = w.update(i, Entity { destroy_after: Some(DestroyAfter { duration: nd }), ..w[i] });
        assert forall|k: int| 0 <= k < w.len() implies {
            let a = #[trigger] w1[k];
            let b = w[k];
            &&& a.parent == b.parent
            &&& a.alive == b.alive
            &&& a.visual_child == b.visual_child
            &&& (a.player is Some <==> b.player is Some)
            &&& (a.snowball is Some <==> b.snowball is Some)
            &&& a.bounds_ok()
        } by {
            assert(w[k].bounds_ok());
        }
        lemma_wf_pointwise(w, w1);
        if nd == 0 {
            lemma_despawned_wf(w1, i);
        }
    }
}

/// Tick every self-destruction countdown; entities at zero despawn with
/// their children, exactly as `da_fold` says.
pub fn destroy_after(w: &mut World, dt: u32)
    requires
        old(w).wf(),
    ensures
        final(w).wf(),
        final(w)@.len() == old(w)@.len(),
        final(w)@ == da_fold(old(w)@, old(w)@.len(), dt),
{
    let ghost w0 = w@;
    let n = w.ents.len();
    let mut i: usize = 0;
    while i < n
        invariant
            world_wf(w0),
            world_wf(w@),
            n == w0.len(),
            w@.len() == n,
            i <= n,
            w@ == da_fold(w0, i as nat, dt),
        decreases n - i,
    {
        let ghost wpre = w@;
        let e = w.ents[i];
        if e.alive && e.destroy_after.is_some() {
            let dur = match e.destroy_after {
                Some(d) => d.duration,
                None => 0,
            };
            let nd = tick_ms(dur, dt);
            let mut x = e;
            x.destroy_after = Some(DestroyAfter { duration: nd });
            w.ents[i] = x;
            proof {
                assert forall|k: int| 0 <= k < n implies {
                    let a = #[trigger] w@[k];
                    let b = wpre[k];
                    &&& a.parent == b.parent
                    &&& a.alive == b.alive
                    &&& a.visual_child == b.visual_child
                    &&& (a.player is Some <==> b.player is Some)
                    &&& (a.snowball is Some <==> b.snowball is Some)
                    &&& a.bounds_ok()
                } by {
                    assert(wpre[k].bounds_ok());
                }
                lemma_wf_pointwise(wpre, w@);
            }
            if nd == 0 {
                w.despawn_recursive(i);
            }
            proof {
                assert(w@ == da_step(wpre, i as int, dt));
            }
        } else {
            proof {
                assert(w@ == da_step(wpre, i as int, dt));
            }
        }
        proof {
            lemma_da_step_wf(wpre, i as int, dt);
            assert(w@ == da_fold(w0, (i + 1) as nat, dt));
        }
        i += 1;
    }
}

/// One powered-up tick on the player: the window counts down; on expiry
/// the powered-up state and its blink cue are removed together;
/// meanwhile the blink slows in proportion to the time left.
pub open spec fn powerup_step(e: Entity, dt: u32) -> Entity {
    if e.powered_up is Some && e.blink is Some {
        let nd = ticked(e.powered_up->0.time_left, dt);
        if nd == 0 {
            Entity { powered_up: None, blink: None, ..e }
        } else {
            Entity {
                powered_up: Some(PoweredUp { time_left: nd }),
                blink: Some(Blink { speed: (nd * 100 / (POWERUP_DURATION_MS as int)) as u32 }),
                ..e
            }
        }
    } else {
        e
    }
}

/// Tick the player's powered-up window.
pub fn powerup_player(w: &mut World, dt: u32)
    requires
        old(w).wf(),
    ensures
        final(w).wf(),
        final(w)@.len() == old(w)@.len(),
        (forall|i: int| !is_live_player(old(w)@, i)) ==> final(w)@ == old(w)@,
        forall|p: int|
            is_live_player(old(w)@, p) ==> final(w)@ == old(w)@.update(
                p,
                powerup_step(old(w)@[p], dt),
            ),
{
    let ghost w0 = w@;
    let p = match w.find_player() {
        Some(p) => p,
        None => {
            return ;
        },
    };
    let e = w.ents[p];
    if e.powered_up.is_some() && e.blink.is_some() {
        let left = match e.powered_up {
            Some(t) => t.time_left,
            None => 0,
        };
        let nd = tick_ms(left, dt);
        let mut x = e;
        if nd == 0 {
            x.powered_up = None;
            x.blink = None;
        } else {
            x.powered_up = Some(PoweredUp { time_left: nd });
            let speed = ((nd as u64) * 100 / (POWERUP_DURATION_MS as u64)) as u32;
            x.blink = Some(Blink { speed });
        }
        w.ents[p] = x;
    } else {
        proof {
            assert(w@ =~= w0.update(p as int, powerup_step(w0[p as int], dt)));
        }
    }
    proof {
        assert(w@ =~= w0.update(p as int, powerup_step(w0[p as int], dt)));
        assert forall|k: int| 0 <= k < w0.len() implies {
            let a = #[trigger] w@[k];
            let b = w0[k];
            &&& a.parent == b.parent
            &&& a.alive == b.alive
            &&& a.visual_child == b.visual_child
            &&& (a.player is Some <==> b.player is Some)
            &&& (a.snowball is Some <==> b.snowball is Some)
            &&& a.bounds_ok()
        } by {
            assert(w0[k].bounds_ok());
        }
        lemma_wf_pointwise(w0, w@);
    }
}

/// The snowball's visual scale tracks the player's health above the
/// starting ten points, capped at the largest representable scale.
pub open spec fn scaled_snowball(hp: int) -> int {
    if hp / 10 < SCALE_CAP {
        hp / 10
    } else {
        SCALE_CAP as int
    }
}

/// Rescale the snowball hitbox from the player's health: above ten
/// points of health the scale is health divided by ten (in percent).
pub fn scale_snowball_to_health(w: &mut World)
    requires
        old(w).wf(),
    ensures
        final(w).wf(),
        final(w)@.len() == old(w)@.len(),
        (forall|i: int| !is_live_player(old(w)@, i)) ==> final(w)@ == old(w)@,
        (forall|i: int| !is_live_snowball(old(w)@, i)) ==> final(w)@ == old(w)@,
        forall|p: int, sb: int|
            is_live_player(old(w)@, p) && is_live_snowball(old(w)@, sb) ==> final(w)@ == (match old(
                w,
            )@[p].player_health {
                Some(h) => if h.hp > 1000 {
                    old(w)@.update(
                        sb,
                        (Entity {
                            snowball: Some(
                                PlayerSnowball { scale_pct: scaled_snowball(h.hp as int) as i64 },
                            ),
                            ..old(w)@[sb]
                        }),
                    )
                } else {
                    old(w)@
                },
                None => old(w)@,
            }),
{
    let ghost w0 = w@;
    let p = match w.find_player() {
        Some(p) => p,
        None => {
            return ;
        },
    };
    let sb = match w.find_snowball() {
        Some(s) => s,
        None => {
            return ;
        },
    };
    let pe = w.ents[p];
    let hp = match pe.player_health {
        Some(h) => h.hp,
        None => 0,
    };
    if pe.player_health.is_some() && hp > 1000 {
        proof {
            assert(w0[p as int].bounds_ok());
        }
        let raw = hp / 10;
        let scale = if raw < SCALE_CAP {
            raw
        } else {
            SCALE_CAP
        };
        let mut x = w.ents[sb];
        x.snowball = Some(PlayerSnowball { scale_pct: scale });
        w.ents[sb] = x;
        proof {
            assert(hp / 10 == hp as int / 10);
            assert forall|k: int| 0 <= k < w0.len() implies {
                let a = #[trigger] w@[k];
                let b = w0[k];
                &&& a.parent == b.parent
                &&& a.alive == b.alive
                &&& a.visual_child == b.visual_child
                &&& (a.player is Some <==> b.player is Some)
                &&& (a.snowball is Some <==> b.snowball is Some)
                &&& a.bounds_ok()
            } by {
                assert(w0[k].bounds_ok());
            }
            lemma_wf_pointwise(w0, w@);
        }
    }
}

/// If the player's health has run out: request the game-over transition
/// and despawn the player (cascading to the snowball and shields).
pub fn kill_player(w: &mut World) -> (transition: Option<(AppState, GameState)>)
    requires
        old(w).wf(),
    ensures
        final(w).wf(),
        final(w)@.len() == old(w)@.len(),
        (forall|i: int| !is_live_player(old(w)@, i)) ==> final(w)@ == old(w)@ && transition
            is None,
        forall|p: int|
            is_live_player(old(w)@, p) ==> if old(w)@[p].player_health matches Some(h) && h.hp
                <= 0 {
                final(w)@ == despawned(old(w)@, p) && transition == Some(
                    (AppState::GameOver, GameState::Paused),
                )
            } else {
                final(w)@ == old(w)@ && transition is None
            },
{
    let p = match w.find_player() {
        Some(p) => p,
        None => {
            return None;
        },
    };
    let pe = w.ents[p];
    match pe.player_health {
        Some(h) => {
            if h.hp <= 0 {
                w.despawn_recursive(p);
                Some((AppState::GameOver, GameState::Paused))
            } else {
                None
            }
        },
        None => None,
    }
}

/// If the player's experience has reached the requirement: reset it to
/// zero, raise the requirement by the configured step, and request the
/// upgrade-selection transition.
pub fn upgrade_player(w: &mut World, stats: &mut PlayerStats) -> (requested: bool)
    requires
        old(w).wf(),
    ensures
        final(w).wf(),
        final(w)@.len() == old(w)@.len(),
        (forall|i: int| !is_live_player(old(w)@, i)) ==> final(w)@ == old(w)@ && *final(stats)
            == *old(stats) && !requested,
        forall|p: int|
            is_live_player(old(w)@, p) ==> if old(w)@[p].player_xp matches Some(x) && x.xp >= old(
                stats,
            ).xp_requirement {
                requested && final(w)@ == old(w)@.update(
                    p,
                    (Entity { player_xp: Some(PlayerXp { xp: 0 }), ..old(w)@[p] }),
                ) && *final(stats) == (PlayerStats {
                    xp_requirement: (if old(stats).xp_requirement <= u32::MAX
                        - XP_REQUIREMENT_STEP {
                        old(stats).xp_requirement + XP_REQUIREMENT_STEP
                    } else {
                        u32::MAX as int
                    }) as u32,
                    ..*old(stats)
                })
            } else {
                !requested && final(w)@ == old(w)@ && *final(stats) == *old(stats)
            },
{
    let ghost w0 = w@;
    let p = match w.find_player() {
        Some(p) => p,
        None => {
            return false;
        },
    };
    let pe = w.ents[p];
    match pe.player_xp {
        Some(x) => {
            if x.xp >= stats.xp_requirement {
                let mut y = pe;
                y.player_xp = Some(PlayerXp { xp: 0 });
                w.ents[p] = y;
                stats.xp_requirement = if stats.xp_requirement <= u32::MAX - XP_REQUIREMENT_STEP {
                    stats.xp_requirement + XP_REQUIREMENT_STEP
                } else {
                    u32::MAX
                };
                proof {
                    assert(w@ =~= w0.update(
                        p as int,
                        Entity { player_xp: Some(PlayerXp { xp: 0 }), ..w0[p as int] },
                    ));
                    assert forall|k: int| 0 <= k < w0.len() implies {
                        let a = #[trigger] w@[k];
                        let b = w0[k];
                        &&& a.parent == b.parent
                        &&& a.alive == b.alive
                        &&& a.visual_child == b.visual_child
                        &&& (a.player is Some <==> b.player is Some)
                        &&& (a.snowball is Some <==> b.snowball is Some)
                        &&& a.bounds_ok()
                    } by {
                        assert(w0[k].bounds_ok());
                    }
                    lemma_wf_pointwise(w0, w@);
                }
                true
            } else {
                false
            }
        },
        None => false,
    }
}

/// An experience orb dropped where an enemy died: it carries one point
/// of experience and drifts toward a nearby player.
pub open spec fn orb_at(pos: Vec2) -> Entity {
    Entity {
        enemy_xp: Some(EnemyXp { xp: XP_PER_ORB }),
        chase: Some(ChasePlayer { speed: (100 * COORD_UNIT) as i64, radius: (80 * COORD_UNIT) as i64 }),
        ..blank_at(pos)
    }
}

/// Whether enemy `i` is dead and reaped this pass.
pub open spec fn kde_considers(w: Seq<Entity>, p: int, i: int) -> bool {
    &&& 0 <= i < w.len()
    &&& i != p
    &&& w[i].alive
    &&& w[i].enemy
    &&& w[i].enemy_xp is None
    &&& (w[i].enemy_health matches Some(h) && h.health <= 0)
}

/// Reaping dead enemy `i`: the player is healed a little, the enemy
/// despawns with its children, an experience orb drops at its last
/// position, and the live-enemy count falls.
pub open spec fn kde_step(w: Seq<Entity>, cnt: int, p: int, i: int) -> (Seq<Entity>, int) {
    if kde_considers(w, p, i) {
        let pe = w[p];
        let healed = w.update(
            p,
            Entity {
                player_health: Some(
                    PlayerHealth {
                        hp: clamp_hp(
                            (match pe.player_health {
                                Some(h) => h.hp,
                                None => 0,
                            }) + KILL_HEAL,
                        ) as i64,
                    },
                ),
                ..pe
            },
        );
        (despawned(healed, i).push(orb_at(w[i].pos)), dec_sat(cnt))
    } else {
        (w, cnt)
    }
}

/// The reaping pass folded over the first `k` entities.
pub open spec fn kde_fold(w0: Seq<Entity>, cnt0: int, p: int, k: nat) -> (Seq<Entity>, int)
    decreases k,
{
    if k == 0 {
        (w0, cnt0)
    } else {
        let prev = kde_fold(w0, cnt0, p, (k - 1) as nat);
        kde_step(prev.0, prev.1, p, k - 1)
    }
}

/// One reaping step keeps the arena well formed.
proof fn lemma_kde_step_wf(w: Seq<Entity>, cnt: int, p: int, i: int)
    requires
        world_wf(w),
        0 <= p < w.len(),
    ensures
        world_wf(kde_step(w, cnt, p, i).0),
        kde_step(w, cnt, p, i).0.len() >= w.len(),
{
    if kde_considers(w, p, i) {
        let pe = w[p];
        let healed = kde_step(w, cnt, p, i).0;
        let h1 = w.update(
            p,
            Entity {
                player_health: Some(
                    PlayerHealth {
                        hp: clamp_hp(
                            (match pe.player_health {
                                Some(h) => h.hp,
                                None => 0,
                            }) + KILL_HEAL,
                        ) as i64,
                    },
                ),
                ..pe
            },
        );
        assert forall|k: int| 0 <= k < w.len() implies {
            let a = #[trigger] h1[k];
            let b = w[k];
            &&& a.parent == b.parent
            &&& a.alive == b.alive
            &&& a.visual_child == b.visual_child
            &&& (a.player is Some <==> b.player is Some)
            &&& (a.snowball is Some <==> b.snowball is Some)
            &&& a.bounds_ok()
        } by {
            assert(w[k].bounds_ok());
        }
        lemma_wf_pointwise(w, h1);
        lemma_despawned_wf(h1, i);
        lemma_push_root_wf(despawned(h1, i), orb_at(w[i].pos));
        assert(w[i].bounds_ok());
    }
}

/// Reap every dead enemy: despawn it (cascading), drop an experience orb
/// where it stood, count it out of the live population, and heal the
/// player a fifth of a point. With no live player with health the tick
/// is skipped.
pub fn kill_dead_enemies(w: &mut World, count: &mut EnemyCount)
    requires
        old(w).wf(),
    ensures
        final(w).wf(),
        final(count).max_enemies == old(count).max_enemies,
        final(count).min_enemies == old(count).min_enemies,
        (forall|i: int| !is_live_player(old(w)@, i)) ==> final(w)@ == old(w)@ && *final(count)
            == *old(count),
        forall|p: int|
            is_live_player(old(w)@, p) && old(w)@[p].player_health is None ==> final(w)@ == old(
                w,
            )@ && *final(count) == *old(count),
        forall|p: int|
            is_live_player(old(w)@, p) && old(w)@[p].player_health is Some
                ==> (final(w)@, final(count).enemy_count as int) == kde_fold(
                old(w)@,
                old(count).enemy_count as int,
                p,
                old(w)@.len(),
            ),
{
    let ghost w0 = w@;
    let ghost c0 = count.enemy_count as int;
    let p = match w.find_player() {
        Some(p) => p,
        None => {
            return ;
        },
    };
    if w.ents[p].player_health.is_none() {
        return ;
    }
    let n = w.ents.len();
    let mut i: usize = 0;
    while i < n
        invariant
            world_wf(w0),
            world_wf(w@),
            n == w0.len(),
            w@.len() >= n,
            i <= n,
            p < n,
            w@[p as int].player_health is Some,
            count.max_enemies == old(count).max_enemies,
            count.min_enemies == old(count).min_enemies,
            c0 == old(count).enemy_count as int,
            (w@, count.enemy_count as int) == kde_fold(w0, c0, p as int, i as nat),
        decreases n - i,
    {
        let ghost wpre = w@;
        let ghost cpre = count.enemy_count as int;
        let e = w.ents[i];
        let dead = match e.enemy_health {
            Some(h) => h.health <= 0,
            None => false,
        };
        if i != p && e.alive && e.enemy && e.enemy_xp.is_none() && dead {
            let pe = w.ents[p];
            let hp = match pe.player_health {
                Some(h) => h.hp,
                None => 0,
            };
            proof {
                assert(wpre[p as int].bounds_ok());
            }
            let hp1 = hp_add(hp, KILL_HEAL);
            let mut x = pe;
            x.player_health = Some(PlayerHealth { hp: hp1 });
            w.ents[p] = x;
            proof {
                assert forall|k: int| 0 <= k < wpre.len() implies {
                    let a = #[trigger] w@[k];
                    let b = wpre[k];
                    &&& a.parent == b.parent
                    &&& a.alive == b.alive
                    &&& a.visual_child == b.visual_child
                    &&& (a.player is Some <==> b.player is Some)
                    &&& (a.snowball is Some <==> b.snowball is Some)
                    &&& a.bounds_ok()
                } by {
                    assert(wpre[k].bounds_ok());
                }
                lemma_wf_pointwise(wpre, w@);
            }
            w.despawn_recursive(i);
            count.enemy_count = dec_count(count.enemy_count);
            let mut orb = make_blank(e.pos);
            orb.enemy_xp = Some(EnemyXp { xp: XP_PER_ORB });
            orb.chase = Some(ChasePlayer { speed: 100 * COORD_UNIT, radius: 80 * COORD_UNIT });
            proof {
                assert(wpre[i as int].bounds_ok());
                lemma_push_root_wf(w@, orb);
            }
            w.ents.push(orb);
            proof {
                assert((w@, count.enemy_count as int) == kde_step(wpre, cpre, p as int, i as int));
            }
        } else {
            proof {
                assert(!kde_considers(wpre, p as int, i as int));
                assert((w@, count.enemy_count as int) == kde_step(wpre, cpre, p as int, i as int));
            }
        }
        proof {
            assert((w@, count.enemy_count as int) == kde_fold(w0, c0, p as int, (i + 1) as nat));
        }
        i += 1;
    }
}

/// One chase step for entity `i`: while within its chase radius of the
/// player, and not frozen, it moves toward the player by its speed over
/// the tick; the per-tick travel is capped at the displacement limit.
pub open spec fn chase_step_at(w: Seq<Entity>, p: int, i: int, dt: u32) -> Entity {
    let e = w[i];
    if 0 <= i < w.len() && i != p && e.alive && e.chase is Some && !(e.status is Frozen) {
        let c = e.chase->0;
        if dist_sq(e.pos, w[p].pos) > c.radius * c.radius {
            e
        } else {
            let raw = tdiv(c.speed * dt, 1000);
            let step = if raw < DISP_LIMIT {
                raw
            } else {
                DISP_LIMIT as int
            };
            let dir = unit_dir(
                Vec2 { x: (w[p].pos.x - e.pos.x) as i64, y: (w[p].pos.y - e.pos.y) as i64 },
            );
            Entity {
                pos: crate::geom::moved_pos(
                    e.pos,
                    tdiv(dir.x * step, DIR_ONE as int),
                    tdiv(dir.y * step, DIR_ONE as int),
                ),
                ..e
            }
        }
    } else {
        e
    }
}

/// Move every chasing entity (enemies, drifting orbs) toward the player.
/// Frozen entities stay put. With no live player the tick is skipped.
#[verifier::rlimit(100)]
pub fn chase_player(w: &mut World, dt: u32)
    requires
        old(w).wf(),
        dt <= DT_LIMIT_MS,
    ensures
        final(w).wf(),
        final(w)@.len() == old(w)@.len(),
        (forall|i: int| !is_live_player(old(w)@, i)) ==> final(w)@ == old(w)@,
        forall|p: int|
            is_live_player(old(w)@, p) ==> forall|i: int|
                0 <= i < old(w)@.len() ==> final(w)@[i] == chase_step_at(old(w)@, p, i, dt),
{
    let ghost w0 = w@;
    let p = match w.find_player() {
        Some(p) => p,
        None => {
            return ;
        },
    };
    let n = w.ents.len();
    let mut i: usize = 0;
    while i < n
        invariant
            world_wf(w0),
            n == w0.len(),
            w@.len() == n,
            i <= n,
            p < n,
            dt <= DT_LIMIT_MS,
            is_live_player(w0, p as int),
            forall|k: int| 0 <= k < i ==> w@[k] == chase_step_at(w0, p as int, k, dt),
            forall|k: int| i <= k < n ==> w@[k] == w0[k],
        decreases n - i,
    {
        let e = w.ents[i];
        if i != p && e.alive && e.chase.is_some() && !matches!(e.status, Status::Frozen(_)) {
            let c = match e.chase {
                Some(c) => c,
                None => ChasePlayer { speed: 0, radius: 0 },
            };
            let pe = w.ents[p];
            proof {
                assert(w@[p as int] == w0[p as int]) by {
                    if (p as int) < i as int {
                        assert(chase_step_at(w0, p as int, p as int, dt) == w0[p as int]);
                    }
                }
                assert(w0[i as int].bounds_ok());
                assert(w0[p as int].bounds_ok());
                assert(c.radius * c.radius <= 0x8000_0000 * 0x8000_0000) by (nonlinear_arith)
                    requires
                        0 <= c.radius <= 0x8000_0000,
                ;
            }
            let d2 = crate::geom::dist_sq_exec(e.pos, pe.pos);
            let r = c.radius as u64;
            proof {
                assert(r * r <= 0x8000_0000u64 * 0x8000_0000u64) by (nonlinear_arith)
                    requires
                        0 <= r <= 0x8000_0000u64,
                ;
                assert(0x8000_0000u64 * 0x8000_0000u64 == 0x4000_0000_0000_0000u64);
            }
            if d2 <= r * r {
                proof {
                    assert(0 <= c.speed * dt <= 0x4_0000_0000_0000) by (nonlinear_arith)
                        requires
                            0 <= c.speed <= 0x4000_0000,
                            0 <= dt <= 0x10_0000,
                    ;
                    lemma_tdiv_bounds(c.speed as int * dt as int, 1000, 0x4_0000_0000_0000);
                }
                let raw = tdiv_i64(c.speed * (dt as i64), 1000);
                let step = if raw < DISP_LIMIT {
                    raw
                } else {
                    DISP_LIMIT
                };
                let dir = unit_toward(e.pos, pe.pos);
                proof {
                    assert(-0x1_0000_0000 * 256 <= dir.x * step <= 0x1_0000_0000 * 256)
                        by (nonlinear_arith)
                        requires
                            -256 <= dir.x <= 256,
                            0 <= step <= 0x1_0000_0000,
                    ;
                    assert(-0x1_0000_0000 * 256 <= dir.y * step <= 0x1_0000_0000 * 256)
                        by (nonlinear_arith)
                        requires
                            -256 <= dir.y <= 256,
                            0 <= step <= 0x1_0000_0000,
                    ;
                    lemma_tdiv_mul_le(dir.x as int, step as int, 256);
                    lemma_tdiv_mul_le(dir.y as int, step as int, 256);
                }
                let dx = tdiv_i64(dir.x * step, DIR_ONE);
                let dy = tdiv_i64(dir.y * step, DIR_ONE);
                let mut x = e;
                x.pos = crate::geom::move_pos(e.pos, dx, dy);
                w.ents[i] = x;
            }
        }
        i += 1;
    }
    proof {
        assert forall|k: int| 0 <= k < n implies {
            let a = #[trigger] w@[k];
            let b = w0[k];
            &&& a.parent == b.parent
            &&& a.alive == b.alive
            &&& a.visual_child == b.visual_child
            &&& (a.player is Some <==> b.player is Some)
            &&& (a.snowball is Some <==> b.snowball is Some)
            &&& a.bounds_ok()
        } by {
            assert(w0[k].bounds_ok());
            assert(w@[k] == chase_step_at(w0, p as int, k, dt));
        }
        lemma_wf_pointwise(w0, w@);
    }
}

/// One bulk-cleanup step: despawn entity `i` (cascading) when the
/// predicate-bearing component is present, whatever timers remain.
pub open spec fn clear_xp_step(w: Seq<Entity>, i: int) -> Seq<Entity> {
    if 0 <= i < w.len() && w[i].alive && w[i].enemy_xp is Some {
        despawned(w, i)
    } else {
        w
    }
}

/// The orb cleanup folded over the first `k` entities.
pub open spec fn clear_xp_fold(w0: Seq<Entity>, k: nat) -> Seq<Entity>
    decreases k,
{
    if k == 0 {
        w0
    } else {
        clear_xp_step(clear_xp_fold(w0, (k - 1) as nat), k - 1)
    }
}

/// On leaving the combat scope: despawn every experience orb,
/// unconditionally.
pub fn cleanup_xp(w: &mut World)
    requires
        old(w).wf(),
    ensures
        final(w).wf(),
        final(w)@.len() == old(w)@.len(),
        final(w)@ == clear_xp_fold(old(w)@, old(w)@.len()),
{
    let ghost w0 = w@;
    let n = w.ents.len();
    let mut i: usize = 0;
    while i < n
        invariant
            world_wf(w0),
            world_wf(w@),
            n == w0.len(),
            w@.len() == n,
            i <= n,
            w@ == clear_xp_fold(w0, i as nat),
        decreases n - i,
    {
        let ghost wpre = w@;
        let e = w.ents[i];
        if e.alive && e.enemy_xp.is_some() {
            w.despawn_recursive(i);
        }
        proof {
            assert(w@ == clear_xp_step(wpre, i as int));
            if 0 <= i < wpre.len() && wpre[i as int].alive && wpre[i as int].enemy_xp is Some {
                lemma_despawned_wf(wpre, i as int);
            }
            assert(w@ == clear_xp_fold(w0, (i + 1) as nat));
        }
        i += 1;
    }
}

/// One enemy-cleanup step.
pub open spec fn clear_enemy_step(w: Seq<Entity>, i: int) -> Seq<Entity> {
    if 0 <= i < w.len() && w[i].alive && w[i].enemy {
        despawned(w, i)
    } else {
        w
    }
}

/// The enemy cleanup folded over the first `k` entities.
pub open spec fn clear_enemy_fold(w0: Seq<Entity>, k: nat) -> Seq<Entity>
    decreases k,
{
    if k == 0 {
        w0
    } else {
        clear_enemy_step(clear_enemy_fold(w0, (k - 1) as nat), k - 1)
    }
}

/// On leaving the combat scope: despawn every enemy (with its children),
/// unconditionally, whatever timers remain.
pub fn clean_up_enemies(w: &mut World)
    requires
        old(w).wf(),
    ensures
        final(w).wf(),
        final(w)@.len() == old(w)@.len(),
        final(w)@ == clear_enemy_fold(old(w)@, old(w)@.len()),
{
    let ghost w0 = w@;
    let n = w.ents.len();
    let mut i: usize = 0;
    while i < n
        invariant
            world_wf(w0),
            world_wf(w@),
            n == w0.len(),
            w@.len() == n,
            i <= n,
            w@ == clear_enemy_fold(w0, i as nat),
        decreases n - i,
    {
        let ghost wpre = w@;
        let e = w.ents[i];
        if e.alive && e.enemy {
            w.despawn_recursive(i);
        }
        proof {
            assert(w@ == clear_enemy_step(wpre, i as int));
            if 0 <= i < wpre.len() && wpre[i as int].alive && wpre[i as int].enemy {
                lemma_despawned_wf(wpre, i as int);
            }
            assert(w@ == clear_enemy_fold(w0, (i + 1) as nat));
        }
        i += 1;
    }
}

/// One pickup-cleanup step.
pub open spec fn clear_pickup_step(w: Seq<Entity>, i: int) -> Seq<Entity> {
    if 0 <= i < w.len() && w[i].alive && w[i].pickup is Some {
        despawned(w, i)
    } else {
        w
    }
}

/// The pickup cleanup folded over the first `k` entities.
pub open spec fn clear_pickup_fold(w0: Seq<Entity>, k: nat) -> Seq<Entity>
    decreases k,
{
    if k == 0 {
        w0
    } else {
        clear_pickup_step(clear_pickup_fold(w0, (k - 1) as nat), k - 1)
    }
}

/// On leaving the combat scope: despawn every pickup with its shadow,
/// unconditionally.
pub fn clean_up_pickups(w: &mut World)
    requires
        old(w).wf(),
    ensures
        final(w).wf(),
        final(w)@.len() == old(w)@.len(),
        final(w)@ == clear_pickup_fold(old(w)@, old(w)@.len()),
{
    let ghost w0 = w@;
    let n = w.ents.len();
    let mut i: usize = 0;
    while i < n
        invariant
            world_wf(w0),
            world_wf(w@),
            n == w0.len(),
            w@.len() == n,
            i <= n,
            w@ == clear_pickup_fold(w0, i as nat),
        decreases n - i,
    {
        let ghost wpre = w@;
        let e = w.ents[i];
        if e.alive && e.pickup.is_some() {
            w.despawn_recursive(i);
        }
        proof {
            assert(w@ == clear_pickup_step(wpre, i as int));
            if 0 <= i < wpre.len() && wpre[i as int].alive && wpre[i as int].pickup is Some {
                lemma_despawned_wf(wpre, i as int);
            }
            assert(w@ == clear_pickup_fold(w0, (i + 1) as nat));
        }
        i += 1;
    }
}

} // verus!
