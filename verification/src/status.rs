//! The freeze / fire / vulnerability status-effect state machine.
//!
//! Hits set pending `check_freeze` / `check_fire` request flags on an
//! enemy (chance-gated by the hit-resolution systems). Each tick the two
//! check passes turn pending flags into state transitions:
//!
//! * a request matching the current state is discarded and the flag
//!   cleared;
//! * a freeze request on a burning enemy forcibly extinguishes the fire
//!   (destroying fire-animation children, optionally dealing one-time
//!   flash-freeze bonus damage) before the fresh frost is applied;
//! * a fire request on a frozen enemy forcibly thaws it (destroying
//!   frost-overlay children, optionally granting the freezer-burn
//!   vulnerability) before the fresh fire is applied.
//!
//! Frozen and OnFire are one enum variant each, so an enemy can never
//! hold both: the mutual exclusivity the design demands is structural.
//! The ticking systems at the end of this module count the effects down
//! and fire their expiry side effects.

use vstd::prelude::*;
use crate::geom::{Vec2, tdiv, tdiv_i64};
use crate::components::{
    Status, Frozen, OnFire, Vunerable, FlashingTimer, Blink, DestroyAfter, PlayerStats,
    EnemyHealth, clamp_hp, ticked, tick_ms, HP_CAP, DT_LIMIT_MS,
};
use crate::world::{
    Entity, World, world_wf, blank_at, make_blank, parent_ok, visual_ok, is_live_player,
    is_live_snowball,
};

verus! {

/// Whether the freeze-check pass acts on entity `i`: a live, top-level
/// enemy with a pending freeze request.
pub open spec fn freeze_considers(w: Seq<Entity>, i: int) -> bool {
    &&& 0 <= i < w.len()
    &&& w[i].alive
    &&& w[i].check_freeze
    &&& w[i].enemy_health is Some
    &&& w[i].parent is None
}

/// The frost-overlay entity spawned as a timed child of a freshly frozen
/// enemy: it mirrors the frozen state and self-destructs with it.
pub open spec fn frost_overlay(i: int, dur: u32) -> Entity {
    Entity {
        parent: Some(i as usize),
        status: Status::Frozen(Frozen { duration: dur }),
        destroy_after: Some(DestroyAfter { duration: dur }),
        ..blank_at(Vec2 { x: 0, y: 0 })
    }
}

/// What applying a fresh freeze to enemy `i` does to entity `j`.
///
/// The enemy itself is extinguished first if it was burning (taking the
/// flash-freeze bonus damage if that upgrade is on, and dropping any
/// pending fire request), then frozen for the configured duration. Its
/// visual child loses the fire blink and gets a single neutral flash on
/// a fire cross, and mirrors the frozen state. Burning fire-animation
/// children are extinguished and the timed ones destroyed.
pub open spec fn freeze_apply_at(w: Seq<Entity>, i: int, j: int, stats: PlayerStats) -> Entity {
    let e = w[j];
    let fire_was = w[i].status is OnFire;
    if j == i {
        let h0 = match e.enemy_health {
            Some(h) => h.health,
            None => 0,
        };
        let h1 = if fire_was && stats.flash_freeze {
            clamp_hp(h0 - tdiv(h0 * stats.flash_freeze_percent_damage, 100))
        } else {
            h0 as int
        };
        Entity {
            status: Status::Frozen(Frozen { duration: stats.freeze_duration }),
            check_fire: if fire_was {
                false
            } else {
                e.check_fire
            },
            enemy_health: Some(EnemyHealth { health: h1 as i64 }),
            ..e
        }
    } else {
        let e1 = if fire_was && e.alive && w[i].visual_child == Some(j as usize) {
            Entity { blink: None, flash: Some(FlashingTimer { time_left: 0 }), ..e }
        } else {
            e
        };
        let e2 = if fire_was && e.alive && e.parent == Some(i as usize) && e.status is OnFire {
            Entity {
                status: Status::Normal,
                alive: !(e.destroy_after is Some),
                ..e1
            }
        } else {
            e1
        };
        if e.alive && w[i].visual_child == Some(j as usize) {
            Entity { status: Status::Frozen(Frozen { duration: stats.freeze_duration }), ..e2 }
        } else {
            e2
        }
    }
}

/// One step of the freeze-check pass at entity `i`.
///
/// A request on an already frozen enemy is discarded (the flag cleared,
/// nothing refreshed). Otherwise the freeze is applied as
/// `freeze_apply_at` says, and the frost overlay is spawned as a timed
/// child. The freeze flag itself is left for the next pass to discard.
pub open spec fn freeze_step(w: Seq<Entity>, i: int, stats: PlayerStats) -> Seq<Entity> {
    if !freeze_considers(w, i) {
        w
    } else if w[i].status is Frozen {
        w.update(i, Entity { check_freeze: false, ..w[i] })
    } else {
        let applied = Seq::new(w.len(), |j: int| freeze_apply_at(w, i, j, stats));
        applied.push(frost_overlay(i, stats.freeze_duration))
    }
}

/// The freeze-check pass folded over the first `k` entities.
pub open spec fn freeze_fold(w0: Seq<Entity>, k: nat, stats: PlayerStats) -> Seq<Entity>
    decreases k,
{
    if k == 0 {
        w0
    } else {
        freeze_step(freeze_fold(w0, (k - 1) as nat, stats), k - 1, stats)
    }
}

/// The fold only appends: earlier indices stay addressable.
pub proof fn lemma_freeze_fold_len(w0: Seq<Entity>, k: nat, stats: PlayerStats)
    ensures
        freeze_fold(w0, k, stats).len() >= w0.len(),
    decreases k,
{
    if k > 0 {
        lemma_freeze_fold_len(w0, (k - 1) as nat, stats);
    }
}

/// One freeze step keeps the arena well formed.
pub proof fn lemma_freeze_step_wf(w: Seq<Entity>, i: int, stats: PlayerStats)
    requires
        world_wf(w),
        stats.wf(),
        w.len() <= usize::MAX,
    ensures
        world_wf(freeze_step(w, i, stats)),
{
    let w1 = freeze_step(w, i, stats);
    if !freeze_considers(w, i) {
    } else if w[i].status is Frozen {
        assert forall|j: int| 0 <= j < w1.len() implies (#[trigger] w1[j]).bounds_ok() by {
            assert(w[j].bounds_ok());
        }
        assert forall|j: int| 0 <= j < w1.len() implies parent_ok(w1, j) by {
            assert(parent_ok(w, j));
        }
        assert forall|j: int| 0 <= j < w1.len() implies visual_ok(w1, j) by {
            assert(visual_ok(w, j));
        }
        assert forall|a: int, b: int|
            is_live_player(w1, a) && is_live_player(w1, b) implies a == b by {
            assert(is_live_player(w, a) && is_live_player(w, b));
        }
        assert forall|a: int, b: int|
            is_live_snowball(w1, a) && is_live_snowball(w1, b) implies a == b by {
            assert(is_live_snowball(w, a) && is_live_snowball(w, b));
        }
    } else {
        let n = w.len() as int;
        assert forall|j: int| 0 <= j < w1.len() implies (#[trigger] w1[j]).bounds_ok() by {
            if j < n {
                assert(w[j].bounds_ok());
                assert(w1[j] == freeze_apply_at(w, i, j, stats));
            }
        }
        assert forall|j: int| 0 <= j < w1.len() implies parent_ok(w1, j) by {
            if j < n {
                assert(parent_ok(w, j));
                assert(w1[j] == freeze_apply_at(w, i, j, stats));
                match w[j].parent {
                    Some(p) => {
                        assert(parent_ok(w, p as int));
                        assert(w[p as int].parent is None);
                        assert(w1[p as int] == freeze_apply_at(w, i, p as int, stats));
                        assert(w1[j].parent == w[j].parent);
                        assert(w1[p as int].parent is None);
                        assert(w1[p as int].alive == w[p as int].alive);
                        assert(w1[j].alive ==> w[j].alive);
                    },
                    None => {},
                }
                assert(parent_ok(w1, j));
            } else {
                assert(w1[j] == frost_overlay(i, stats.freeze_duration));
                assert((i as usize) as int == i);
                assert(w1[i] == freeze_apply_at(w, i, i, stats));
                assert(w1[i].parent is None);
                assert(w1[i].alive);
                assert(parent_ok(w1, j));
            }
        }
        assert forall|j: int| 0 <= j < w1.len() implies visual_ok(w1, j) by {
            if j < n {
                assert(visual_ok(w, j));
                assert(w1[j] == freeze_apply_at(w, i, j, stats));
                match w[j].visual_child {
                    Some(c) => {
                        assert(w1[c as int] == freeze_apply_at(w, i, c as int, stats));
                    },
                    None => {},
                }
            }
        }
        assert forall|a: int, b: int|
            is_live_player(w1, a) && is_live_player(w1, b) implies a == b by {
            if a < n {
                assert(w1[a] == freeze_apply_at(w, i, a, stats));
            }
            if b < n {
                assert(w1[b] == freeze_apply_at(w, i, b, stats));
            }
            assert(is_live_player(w, a) && is_live_player(w, b));
        }
        assert forall|a: int, b: int|
            is_live_snowball(w1, a) && is_live_snowball(w1, b) implies a == b by {
            if a < n {
                assert(w1[a] == freeze_apply_at(w, i, a, stats));
            }
            if b < n {
                assert(w1[b] == freeze_apply_at(w, i, b, stats));
            }
            assert(is_live_snowball(w, a) && is_live_snowball(w, b));
        }
    }
}

/// Run the freeze-check pass over the arena: every pending freeze
/// request is resolved in index order, exactly as `freeze_fold` says.
pub fn freeze_check(w: &mut World, stats: &PlayerStats)
    requires
        old(w).wf(),
        stats.wf(),
    ensures
        final(w).wf(),
        final(w)@ == freeze_fold(old(w)@, old(w)@.len(), *stats),
{
    let ghost w0 = w@;
    let n0 = w.ents.len();
    let mut i: usize = 0;
    while i < n0
        invariant
            world_wf(w0),
            stats.wf(),
            n0 == w0.len(),
            i <= n0,
            w@ == freeze_fold(w0, i as nat, *stats),
            world_wf(w@),
            w@.len() >= n0,
        decreases n0 - i,
    {
        let ghost wpre = w@;
        let e = w.ents[i];
        if e.alive && e.check_freeze && e.enemy_health.is_some() && e.parent.is_none() {
            if matches!(e.status, Status::Frozen(_)) {
                let mut x = e;
                x.check_freeze = false;
                w.ents[i] = x;
                proof {
                    assert(w@ =~= freeze_step(wpre, i as int, *stats));
                }
            } else {
                let n_cur = w.ents.len();
                let mut j: usize = 0;
                while j < n_cur
                    invariant
                        world_wf(wpre),
                        stats.wf(),
                        n_cur == wpre.len(),
                        j <= n_cur,
                        i < n_cur,
                        w@.len() == n_cur,
                        freeze_considers(wpre, i as int),
                        !(wpre[i as int].status is Frozen),
                        e == wpre[i as int],
                        forall|k: int|
                            0 <= k < j ==> w@[k] == freeze_apply_at(
                                wpre,
                                i as int,
                                k,
                                *stats,
                            ),
                        forall|k: int| j <= k < n_cur ==> w@[k] == wpre[k],
                    decreases n_cur - j,
                {
                    let ghost fire_was = wpre[i as int].status is OnFire;
                    let ecur = w.ents[j];
                    assert(ecur == wpre[j as int]);
                    if j == i {
                        let mut x = ecur;
                        let burning = matches!(ecur.status, Status::OnFire(_));
                        if burning && stats.flash_freeze {
                            let h0 = match ecur.enemy_health {
                                Some(h) => h.health,
                                None => 0,
                            };
                            proof {
                                assert(wpre[j as int].bounds_ok());
                                assert(-0x80_0000_0000_0000 <= h0
                                    * stats.flash_freeze_percent_damage <= 0x80_0000_0000_0000)
                                    by (nonlinear_arith)
                                    requires
                                        -0x100_0000_0000 <= h0 <= 0x100_0000_0000,
                                        0 <= stats.flash_freeze_percent_damage <= 100,
                                ;
                                crate::geom::lemma_tdiv_bounds(
                                    h0 as int * stats.flash_freeze_percent_damage as int,
                                    100,
                                    0x80_0000_0000_0000,
                                );
                            }
                            let bonus = tdiv_i64(h0 * stats.flash_freeze_percent_damage, 100);
                            let h1 = clamp_hp_exec(h0, bonus);
                            x.enemy_health = Some(EnemyHealth { health: h1 });
                        }
                        if burning {
                            x.check_fire = false;
                        }
                        x.status = Status::Frozen(Frozen { duration: stats.freeze_duration });
                        w.ents[j] = x;
                        proof {
                            assert(w@[j as int] == freeze_apply_at(wpre, i as int, j as int, *stats));
                        }
                    } else {
                        let is_visual = match e.visual_child {
                            Some(c) => c == j,
                            None => false,
                        };
                        let mut x = ecur;
                        let burning = matches!(e.status, Status::OnFire(_));
                        if burning && ecur.alive && is_visual {
                            x.blink = None;
                            x.flash = Some(FlashingTimer { time_left: 0 });
                        }
                        let is_fire_child = match ecur.parent {
                            Some(p) => p == i && matches!(ecur.status, Status::OnFire(_)),
                            None => false,
                        };
                        if burning && ecur.alive && is_fire_child {
                            x.status = Status::Normal;
                            x.alive = !ecur.destroy_after.is_some();
                        }
                        if ecur.alive && is_visual {
                            x.status = Status::Frozen(Frozen { duration: stats.freeze_duration });
                        }
                        w.ents[j] = x;
                        proof {
                            assert(w@[j as int] == freeze_apply_at(wpre, i as int, j as int, *stats));
                        }
                    }
                    j += 1;
                }
                let mut overlay = make_blank(Vec2 { x: 0, y: 0 });
                overlay.parent = Some(i);
                overlay.status = Status::Frozen(Frozen { duration: stats.freeze_duration });
                overlay.destroy_after = Some(DestroyAfter { duration: stats.freeze_duration });
                w.ents.push(overlay);
                proof {
                    assert(w@ =~= Seq::new(
                        wpre.len(),
                        |j: int| freeze_apply_at(wpre, i as int, j, *stats),
                    ).push(frost_overlay(i as int, stats.freeze_duration)));
                    assert(w@ == freeze_step(wpre, i as int, *stats));
                }
            }
        } else {
            proof {
                assert(!freeze_considers(wpre, i as int));
                assert(w@ == freeze_step(wpre, i as int, *stats));
            }
        }
        let here_len = w.ents.len();
        proof {
            assert(wpre.len() <= here_len);
            lemma_freeze_step_wf(wpre, i as int, *stats);
            assert(w@ == freeze_fold(w0, (i + 1) as nat, *stats));
            lemma_freeze_fold_len(w0, (i + 1) as nat, *stats);
        }
        i += 1;
    }
}

/// Whether the fire-check pass acts on entity `i`: a live, top-level
/// entity with a pending fire request.
pub open spec fn fire_considers(w: Seq<Entity>, i: int) -> bool {
    &&& 0 <= i < w.len()
    &&& w[i].alive
    &&& w[i].check_fire
    &&& w[i].parent is None
}

/// The looping fire-animation entity spawned as a timed child of a
/// freshly ignited enemy.
pub open spec fn fire_anim(i: int, dur: u32) -> Entity {
    Entity {
        parent: Some(i as usize),
        status: Status::OnFire(OnFire { duration: dur }),
        destroy_after: Some(DestroyAfter { duration: dur }),
        ..blank_at(Vec2 { x: 0, y: 0 })
    }
}

/// What applying a fresh fire to enemy `i` does to entity `j`.
///
/// The enemy itself is thawed first if it was frozen (dropping any
/// pending freeze request and, if the freezer-burn upgrade is on,
/// gaining the vulnerability window), then set burning for the
/// configured duration. Frozen frost children are thawed and the timed
/// overlay destroyed; the visual child gains the blinking fire cue.
pub open spec fn fire_apply_at(w: Seq<Entity>, i: int, j: int, stats: PlayerStats) -> Entity {
    let e = w[j];
    let frozen_was = w[i].status is Frozen;
    if j == i {
        Entity {
            status: Status::OnFire(OnFire { duration: stats.fire_duration }),
            check_freeze: if frozen_was {
                false
            } else {
                e.check_freeze
            },
            vunerable: if frozen_was && stats.freezer_burn {
                Some(
                    Vunerable {
                        multiplier: stats.freezer_burn_multiplier,
                        duration: stats.freezer_burn_duration,
                    },
                )
            } else {
                e.vunerable
            },
            ..e
        }
    } else {
        let e1 = if frozen_was && e.alive && e.parent == Some(i as usize) && e.status is Frozen {
            Entity {
                status: Status::Normal,
                alive: !(e.destroy_after is Some),
                ..e
            }
        } else {
            e
        };
        if e.alive && w[i].visual_child == Some(j as usize) {
            Entity { blink: Some(Blink { speed: 1000 }), ..e1 }
        } else {
            e1
        }
    }
}

/// One step of the fire-check pass at entity `i`: a request on an
/// already burning enemy is discarded (flag cleared); otherwise the fire
/// is applied as `fire_apply_at` says and the fire animation spawned as
/// a timed child.
pub open spec fn fire_step(w: Seq<Entity>, i: int, stats: PlayerStats) -> Seq<Entity> {
    if !fire_considers(w, i) {
        w
    } else if w[i].status is OnFire {
        w.update(i, Entity { check_fire: false, ..w[i] })
    } else {
        let applied = Seq::new(w.len(), |j: int| fire_apply_at(w, i, j, stats));
        applied.push(fire_anim(i, stats.fire_duration))
    }
}

/// The fire-check pass folded over the first `k` entities.
pub open spec fn fire_fold(w0: Seq<Entity>, k: nat, stats: PlayerStats) -> Seq<Entity>
    decreases k,
{
    if k == 0 {
        w0
    } else {
        fire_step(fire_fold(w0, (k - 1) as nat, stats), k - 1, stats)
    }
}

/// The fold only appends: earlier indices stay addressable.
pub proof fn lemma_fire_fold_len(w0: Seq<Entity>, k: nat, stats: PlayerStats)
    ensures
        fire_fold(w0, k, stats).len() >= w0.len(),
    decreases k,
{
    if k > 0 {
        lemma_fire_fold_len(w0, (k - 1) as nat, stats);
    }
}

/// One fire step keeps the arena well formed.
pub proof fn lemma_fire_step_wf(w: Seq<Entity>, i: int, stats: PlayerStats)
    requires
        world_wf(w),
        stats.wf(),
        w.len() <= usize::MAX,
    ensures
        world_wf(fire_step(w, i, stats)),
{
    let w1 = fire_step(w, i, stats);
    if !fire_considers(w, i) {
    } else if w[i].status is OnFire {
        assert forall|j: int| 0 <= j < w1.len() implies (#[trigger] w1[j]).bounds_ok() by {
            assert(w[j].bounds_ok());
        }
        assert forall|j: int| 0 <= j < w1.len() implies parent_ok(w1, j) by {
            assert(parent_ok(w, j));
        }
        assert forall|j: int| 0 <= j < w1.len() implies visual_ok(w1, j) by {
            assert(visual_ok(w, j));
        }
        assert forall|a: int, b: int|
            is_live_player(w1, a) && is_live_player(w1, b) implies a == b by {
            assert(is_live_player(w, a) && is_live_player(w, b));
        }
        assert forall|a: int, b: int|
            is_live_snowball(w1, a) && is_live_snowball(w1, b) implies a == b by {
            assert(is_live_snowball(w, a) && is_live_snowball(w, b));
        }
    } else {
        let n = w.len() as int;
        assert forall|j: int| 0 <= j < w1.len() implies (#[trigger] w1[j]).bounds_ok() by {
            if j < n {
                assert(w[j].bounds_ok());
                assert(w1[j] == fire_apply_at(w, i, j, stats));
            }
        }
        assert forall|j: int| 0 <= j < w1.len() implies parent_ok(w1, j) by {
            if j < n {
                assert(parent_ok(w, j));
                assert(w1[j] == fire_apply_at(w, i, j, stats));
                match w[j].parent {
                    Some(p) => {
                        assert(parent_ok(w, p as int));
                        assert(w[p as int].parent is None);
                        assert(w1[p as int] == fire_apply_at(w, i, p as int, stats));
                        assert(w1[j].parent == w[j].parent);
                        assert(w1[p as int].parent is None);
                        assert(w1[p as int].alive == w[p as int].alive);
                        assert(w1[j].alive ==> w[j].alive);
                    },
                    None => {},
                }
                assert(parent_ok(w1, j));
            } else {
                assert(w1[j] == fire_anim(i, stats.fire_duration));
                assert((i as usize) as int == i);
                assert(w1[i] == fire_apply_at(w, i, i, stats));
                assert(w1[i].parent is None);
                assert(w1[i].alive);
                assert(parent_ok(w1, j));
            }
        }
        assert forall|j: int| 0 <= j < w1.len() implies visual_ok(w1, j) by {
            if j < n {
                assert(visual_ok(w, j));
                assert(w1[j] == fire_apply_at(w, i, j, stats));
                match w[j].visual_child {
                    Some(c) => {
                        assert(w1[c as int] == fire_apply_at(w, i, c as int, stats));
                    },
                    None => {},
                }
            }
        }
        assert forall|a: int, b: int|
            is_live_player(w1, a) && is_live_player(w1, b) implies a == b by {
            if a < n {
                assert(w1[a] == fire_apply_at(w, i, a, stats));
            }
            if b < n {
                assert(w1[b] == fire_apply_at(w, i, b, stats));
            }
            assert(is_live_player(w, a) && is_live_player(w, b));
        }
        assert forall|a: int, b: int|
            is_live_snowball(w1, a) && is_live_snowball(w1, b) implies a == b by {
            if a < n {
                assert(w1[a] == fire_apply_at(w, i, a, stats));
            }
            if b < n {
                assert(w1[b] == fire_apply_at(w, i, b, stats));
            }
            assert(is_live_snowball(w, a) && is_live_snowball(w, b));
        }
    }
}

/// Run the fire-check pass over the arena: every pending fire request is
/// resolved in index order, exactly as `fire_fold` says. The tick
/// schedule runs this before `freeze_check`.
pub fn fire_check(w: &mut World, stats: &PlayerStats)
    requires
        old(w).wf(),
        stats.wf(),
    ensures
        final(w).wf(),
        final(w)@ == fire_fold(old(w)@, old(w)@.len(), *stats),
{
    let ghost w0 = w@;
    let n0 = w.ents.len();
    let mut i: usize = 0;
    while i < n0
        invariant
            world_wf(w0),
            stats.wf(),
            n0 == w0.len(),
            i <= n0,
            w@ == fire_fold(w0, i as nat, *stats),
            world_wf(w@),
            w@.len() >= n0,
        decreases n0 - i,
    {
        let ghost wpre = w@;
        let e = w.ents[i];
        if e.alive && e.check_fire && e.parent.is_none() {
            if matches!(e.status, Status::OnFire(_)) {
                let mut x = e;
                x.check_fire = false;
                w.ents[i] = x;
                proof {
                    assert(w@ =~= fire_step(wpre, i as int, *stats));
                }
            } else {
                let n_cur = w.ents.len();
                let mut j: usize = 0;
                while j < n_cur
                    invariant
                        world_wf(wpre),
                        stats.wf(),
                        n_cur == wpre.len(),
                        j <= n_cur,
                        i < n_cur,
                        w@.len() == n_cur,
                        fire_considers(wpre, i as int),
                        !(wpre[i as int].status is OnFire),
                        e == wpre[i as int],
                        forall|k: int|
                            0 <= k < j ==> w@[k] == fire_apply_at(wpre, i as int, k, *stats),
                        forall|k: int| j <= k < n_cur ==> w@[k] == wpre[k],
                    decreases n_cur - j,
                {
                    let ghost frozen_was = wpre[i as int].status is Frozen;
                    let ecur = w.ents[j];
                    assert(ecur == wpre[j as int]);
                    if j == i {
                        let mut x = ecur;
                        let was_frozen = matches!(ecur.status, Status::Frozen(_));
                        if was_frozen {
                            x.check_freeze = false;
                            if stats.freezer_burn {
                                x.vunerable = Some(
                                    Vunerable {
                                        multiplier: stats.freezer_burn_multiplier,
                                        duration: stats.freezer_burn_duration,
                                    },
                                );
                            }
                        }
                        x.status = Status::OnFire(OnFire { duration: stats.fire_duration });
                        w.ents[j] = x;
                        proof {
                            assert(w@[j as int] == fire_apply_at(wpre, i as int, j as int, *stats));
                        }
                    } else {
                        let is_visual = match e.visual_child {
                            Some(c) => c == j,
                            None => false,
                        };
                        let mut x = ecur;
                        let was_frozen = matches!(e.status, Status::Frozen(_));
                        let is_frost_child = match ecur.parent {
                            Some(p) => p == i && matches!(ecur.status, Status::Frozen(_)),
                            None => false,
                        };
                        if was_frozen && ecur.alive && is_frost_child {
                            x.status = Status::Normal;
                            x.alive = !ecur.destroy_after.is_some();
                        }
                        if ecur.alive && is_visual {
                            x.blink = Some(Blink { speed: 1000 });
                        }
                        w.ents[j] = x;
                        proof {
                            assert(w@[j as int] == fire_apply_at(wpre, i as int, j as int, *stats));
                        }
                    }
                    j += 1;
                }
                let mut anim = make_blank(Vec2 { x: 0, y: 0 });
                anim.parent = Some(i);
                anim.status = Status::OnFire(OnFire { duration: stats.fire_duration });
                anim.destroy_after = Some(DestroyAfter { duration: stats.fire_duration });
                w.ents.push(anim);
                proof {
                    assert(w@ =~= Seq::new(
                        wpre.len(),
                        |j: int| fire_apply_at(wpre, i as int, j, *stats),
                    ).push(fire_anim(i as int, stats.fire_duration)));
                    assert(w@ == fire_step(wpre, i as int, *stats));
                }
            }
        } else {
            proof {
                assert(!fire_considers(wpre, i as int));
                assert(w@ == fire_step(wpre, i as int, *stats));
            }
        }
        let here_len = w.ents.len();
        proof {
            assert(wpre.len() <= here_len);
            lemma_fire_step_wf(wpre, i as int, *stats);
            assert(w@ == fire_fold(w0, (i + 1) as nat, *stats));
            lemma_fire_fold_len(w0, (i + 1) as nat, *stats);
        }
        i += 1;
    }
}

/// Clamped subtraction of a signed bonus from a health value.
fn clamp_hp_exec(h: i64, delta: i64) -> (r: i64)
    requires
        -HP_CAP <= h <= HP_CAP,
        -0x80_0000_0000_0000 <= delta <= 0x80_0000_0000_0000,
    ensures
        r == clamp_hp(h - delta),
{
    let moved = h - delta;
    if moved < -HP_CAP {
        -HP_CAP
    } else if moved > HP_CAP {
        HP_CAP
    } else {
        moved
    }
}

/// Mutual exclusivity of Frozen and OnFire. The status of an entity is
/// one variant of one enum, so no sequence of freeze and fire requests —
/// each resolved by `freeze_step` / `fire_step` — can ever leave an
/// enemy both frozen and burning; a request that crosses states passes
/// through the extinguish or thaw treatment exactly once, in the very
/// step that installs the new state (`lemma_freeze_on_burning`,
/// `lemma_fire_on_frozen`).
pub proof fn lemma_status_exclusive(e: Entity)
    ensures
        !(e.status.is_frozen() && e.status.is_on_fire()),
{
}

/// A fire request on a frozen enemy thaws it in the same step that
/// ignites it: the frost is removed immediately, any pending freeze
/// request is dropped, the freezer-burn vulnerability is granted exactly
/// when that upgrade is on, the fresh fire carries the configured
/// duration, and every frozen child is thawed (the timed frost overlay
/// destroyed).
pub proof fn lemma_fire_on_frozen(w: Seq<Entity>, i: int, stats: PlayerStats)
    requires
        world_wf(w),
        stats.wf(),
        w.len() <= usize::MAX,
        fire_considers(w, i),
        w[i].status is Frozen,
    ensures
        ({
            let w1 = fire_step(w, i, stats);
            &&& w1[i].status == Status::OnFire(OnFire { duration: stats.fire_duration })
            &&& !w1[i].status.is_frozen()
            &&& w1[i].check_freeze == false
            &&& w1[i].vunerable == (if stats.freezer_burn {
                Some(
                    Vunerable {
                        multiplier: stats.freezer_burn_multiplier,
                        duration: stats.freezer_burn_duration,
                    },
                )
            } else {
                w[i].vunerable
            })
            &&& forall|j: int|
                0 <= j < w.len() && j != i && w[j].alive && w[j].parent == Some(i as usize)
                    && (#[trigger] w[j]).status is Frozen ==> !(fire_step(w, i, stats)[j].status
                    is Frozen) && (fire_step(w, i, stats)[j].alive <==> w[j].destroy_after
                    is None)
        }),
{
    let w1 = fire_step(w, i, stats);
    assert(w1[i] == fire_apply_at(w, i, i, stats));
    assert forall|j: int|
        0 <= j < w.len() && j != i && w[j].alive && w[j].parent == Some(i as usize) && (
        #[trigger] w[j]).status is Frozen implies !(w1[j].status is Frozen) && (w1[j].alive
        <==> w[j].destroy_after is None) by {
        assert(w1[j] == fire_apply_at(w, i, j, stats));
        assert(visual_ok(w, i));
    }
}

/// A freeze request on a burning enemy extinguishes it in the same step
/// that freezes it: the fire is removed immediately, any pending fire
/// request is dropped, the one-time flash-freeze bonus damage lands
/// exactly when that upgrade is on, the fresh frost carries the
/// configured duration, and every burning child is extinguished (the
/// timed fire animation destroyed).
pub proof fn lemma_freeze_on_burning(w: Seq<Entity>, i: int, stats: PlayerStats)
    requires
        world_wf(w),
        stats.wf(),
        w.len() <= usize::MAX,
        freeze_considers(w, i),
        w[i].status is OnFire,
    ensures
        ({
            let w1 = freeze_step(w, i, stats);
            let h0 = w[i].enemy_health->0.health;
            &&& w1[i].status == Status::Frozen(Frozen { duration: stats.freeze_duration })
            &&& !w1[i].status.is_on_fire()
            &&& w1[i].check_fire == false
            &&& w1[i].enemy_health == Some(
                EnemyHealth {
                    health: (if stats.flash_freeze {
                        clamp_hp(h0 - tdiv(h0 * stats.flash_freeze_percent_damage, 100))
                    } else {
                        h0 as int
                    }) as i64,
                },
            )
            &&& forall|j: int|
                0 <= j < w.len() && j != i && w[j].alive && w[j].parent == Some(i as usize)
                    && (#[trigger] w[j]).status is OnFire ==> !(freeze_step(w, i, stats)[j].status
                    is OnFire) && (freeze_step(w, i, stats)[j].alive <==> w[j].destroy_after
                    is None)
        }),
{
    let w1 = freeze_step(w, i, stats);
    assert(w1[i] == freeze_apply_at(w, i, i, stats));
    assert forall|j: int|
        0 <= j < w.len() && j != i && w[j].alive && w[j].parent == Some(i as usize) && (
        #[trigger] w[j]).status is OnFire implies !(w1[j].status is OnFire) && (w1[j].alive
        <==> w[j].destroy_after is None) by {
        assert(w1[j] == freeze_apply_at(w, i, j, stats));
    }
}

/// What one frozen-countdown tick does to one entity: the frost ticks
/// down and melts away exactly when the countdown runs out.
pub open spec fn unfreeze_step(e: Entity, dt: u32) -> Entity {
    match e.status {
        Status::Frozen(f) => {
            if e.alive {
                let nd = ticked(f.duration, dt);
                Entity {
                    status: if nd == 0 {
                        Status::Normal
                    } else {
                        Status::Frozen(Frozen { duration: nd })
                    },
                    ..e
                }
            } else {
                e
            }
        },
        _ => e,
    }
}

/// Tick every frozen entity's countdown; frost self-removes at zero.
pub fn unfreeze(w: &mut World, dt: u32)
    requires
        old(w).wf(),
    ensures
        final(w).wf(),
        final(w)@.len() == old(w)@.len(),
        forall|i: int| 0 <= i < old(w)@.len() ==> final(w)@[i] == unfreeze_step(old(w)@[i], dt),
{
    let ghost w0 = w@;
    let n = w.ents.len();
    let mut j: usize = 0;
    while j < n
        invariant
            world_wf(w0),
            n == w0.len(),
            w@.len() == n,
            j <= n,
            forall|k: int| 0 <= k < j ==> w@[k] == unfreeze_step(#[trigger] w0[k], dt),
            forall|k: int| j <= k < n ==> w@[k] == w0[k],
        decreases n - j,
    {
        let e = w.ents[j];
        if e.alive {
            if let Status::Frozen(f) = e.status {
                let nd = tick_ms(f.duration, dt);
                let mut x = e;
                x.status = if nd == 0 {
                    Status::Normal
                } else {
                    Status::Frozen(Frozen { duration: nd })
                };
                w.ents[j] = x;
            }
        }
        j += 1;
    }
    proof {
        assert forall|k: int| 0 <= k < n implies {
            let a = #[trigger] w@[k];
            let b = w0[k];
            &&& a.parent == b.parent
            &&& a.alive == b.alive
            &&& a.visual_child == b.visual_child
            &&& (a.player is Some <==> b.player is Some)
            &&& (a.snowball is Some <==> b.snowball is Some)
            &&& a.bounds_ok()
        } by {
            assert(w0[k].bounds_ok());
            assert(w@[k] == unfreeze_step(w0[k], dt));
        }
        crate::world::lemma_wf_pointwise(w0, w@);
    }
}

/// What one vulnerability tick does to one entity: the window ticks down
/// and self-removes exactly when the countdown runs out.
pub open spec fn vunerable_step(e: Entity, dt: u32) -> Entity {
    match e.vunerable {
        Some(v) => {
            if e.alive {
                let nd = ticked(v.duration, dt);
                Entity {
                    vunerable: if nd == 0 {
                        None
                    } else {
                        Some(Vunerable { multiplier: v.multiplier, duration: nd })
                    },
                    ..e
                }
            } else {
                e
            }
        },
        None => e,
    }
}

/// Tick every vulnerability window; it self-removes at zero.
pub fn vunerable_tickdown(w: &mut World, dt: u32)
    requires
        old(w).wf(),
    ensures
        final(w).wf(),
        final(w)@.len() == old(w)@.len(),
        forall|i: int| 0 <= i < old(w)@.len() ==> final(w)@[i] == vunerable_step(old(w)@[i], dt),
{
    let ghost w0 = w@;
    let n = w.ents.len();
    let mut j: usize = 0;
    while j < n
        invariant
            world_wf(w0),
            n == w0.len(),
            w@.len() == n,
            j <= n,
            forall|k: int| 0 <= k < j ==> w@[k] == vunerable_step(#[trigger] w0[k], dt),
            forall|k: int| j <= k < n ==> w@[k] == w0[k],
        decreases n - j,
    {
        let e = w.ents[j];
        if e.alive {
            if let Some(v) = e.vunerable {
                let nd = tick_ms(v.duration, dt);
                let mut x = e;
                x.vunerable = if nd == 0 {
                    None
                } else {
                    Some(Vunerable { multiplier: v.multiplier, duration: nd })
                };
                w.ents[j] = x;
            }
        }
        j += 1;
    }
    proof {
        assert forall|k: int| 0 <= k < n implies {
            let a = #[trigger] w@[k];
            let b = w0[k];
            &&& a.parent == b.parent
            &&& a.alive == b.alive
            &&& a.visual_child == b.visual_child
            &&& (a.player is Some <==> b.player is Some)
            &&& (a.snowball is Some <==> b.snowball is Some)
            &&& a.bounds_ok()
        } by {
            assert(w0[k].bounds_ok());
            assert(w@[k] == vunerable_step(w0[k], dt));
        }
        crate::world::lemma_wf_pointwise(w0, w@);
    }
}

/// Whether the burning tick acts on entity `i`: a live burning enemy.
pub open spec fn ext_considers(w: Seq<Entity>, i: int) -> bool {
    &&& 0 <= i < w.len()
    &&& w[i].alive
    &&& w[i].status is OnFire
    &&& w[i].enemy_health is Some
}

/// The remaining burn time of entity `i`.
pub open spec fn ext_duration(w: Seq<Entity>, i: int) -> u32 {
    match w[i].status {
        Status::OnFire(f) => f.duration,
        _ => 0,
    }
}

/// Whether `i` is a burning enemy whose fire expires this tick and whose
/// visual child is `j`.
pub open spec fn ext_expiring_parent(w: Seq<Entity>, i: int, j: int, dt: u32) -> bool {
    &&& ext_considers(w, i)
    &&& w[i].visual_child == Some(j as usize)
    &&& ticked(ext_duration(w, i), dt) == 0
}

/// What one burning tick does to one entity. A burning enemy takes
/// `fire_dps * dt` damage-over-time, its countdown ticks, and the fire
/// self-removes at zero; the visual child of an enemy whose fire just
/// expired loses the blink cue and gets a single flash-to-neutral pulse.
pub open spec fn ext_apply_at(w: Seq<Entity>, j: int, dt: u32, stats: PlayerStats) -> Entity {
    let e = w[j];
    let e1 = if e.alive && (exists|i: int| ext_expiring_parent(w, i, j, dt)) {
        Entity { blink: None, flash: Some(FlashingTimer { time_left: 0 }), ..e }
    } else {
        e
    };
    if ext_considers(w, j) {
        let nd = ticked(ext_duration(w, j), dt);
        let h = e.enemy_health->0.health;
        let dot = tdiv(stats.fire_dps * dt, 1000);
        Entity {
            status: if nd == 0 {
                Status::Normal
            } else {
                Status::OnFire(OnFire { duration: nd })
            },
            enemy_health: Some(EnemyHealth { health: clamp_hp(h - dot) as i64 }),
            ..e1
        }
    } else {
        e1
    }
}

/// The visual-cue treatment a just-expired fire leaves on the burning
/// enemy's sprite child: blink off, one flash-to-neutral pulse.
pub open spec fn ext_child_fx(e: Entity) -> Entity {
    Entity { blink: None, flash: Some(FlashingTimer { time_left: 0 }), ..e }
}

/// The value of entity `k` after the child cues of every burning enemy
/// before `jbound` have landed, and nothing else.
pub open spec fn ext_partial(w0: Seq<Entity>, k: int, jbound: int, dt: u32) -> Entity {
    if w0[k].alive && (exists|i: int| i < jbound && ext_expiring_parent(w0, i, k, dt)) {
        ext_child_fx(w0[k])
    } else {
        w0[k]
    }
}

/// Widening the bound past a non-parent of `k` changes nothing.
proof fn lemma_ext_partial_same(w0: Seq<Entity>, k: int, j: int, dt: u32)
    requires
        !ext_expiring_parent(w0, j, k, dt),
    ensures
        ext_partial(w0, k, j + 1, dt) == ext_partial(w0, k, j, dt),
{
    if w0[k].alive {
        if exists|i: int| i < j + 1 && ext_expiring_parent(w0, i, k, dt) {
            let i0 = choose|i: int| i < j + 1 && ext_expiring_parent(w0, i, k, dt);
            assert(i0 != j);
            assert(i0 < j && ext_expiring_parent(w0, i0, k, dt));
        }
        if exists|i: int| i < j && ext_expiring_parent(w0, i, k, dt) {
            let i0 = choose|i: int| i < j && ext_expiring_parent(w0, i, k, dt);
            assert(i0 < j + 1 && ext_expiring_parent(w0, i0, k, dt));
        }
    }
}

/// Tick every burning enemy: damage-over-time lands every tick, the fire
/// self-removes at zero, and on expiry the visual child's blink cue is
/// replaced by a single flash-to-neutral pulse.
#[verifier::rlimit(80)]
pub fn extinguish(w: &mut World, dt: u32, stats: &PlayerStats)
    requires
        old(w).wf(),
        stats.wf(),
        dt <= DT_LIMIT_MS,
    ensures
        final(w).wf(),
        final(w)@.len() == old(w)@.len(),
        forall|j: int| 0 <= j < old(w)@.len() ==> final(w)@[j] == ext_apply_at(old(w)@, j, dt, *stats),
{
    let ghost w0 = w@;
    let n = w.ents.len();
    let mut j: usize = 0;
    while j < n
        invariant
            world_wf(w0),
            stats.wf(),
            dt <= DT_LIMIT_MS,
            n == w0.len(),
            w@.len() == n,
            j <= n,
            forall|k: int| 0 <= k < j ==> w@[k] == ext_apply_at(w0, k, dt, *stats),
            forall|k: int| j <= k < n ==> w@[k] == ext_partial(w0, k, j as int, dt),
        decreases n - j,
    {
        let ghost jj = j as int;
        let ecur = w.ents[j];
        proof {
            assert(w@[jj] == ext_partial(w0, jj, jj, dt));
            assert forall|i: int| ext_expiring_parent(w0, i, jj, dt) implies i < jj by {
                assert(visual_ok(w0, i));
            }
        }
        let mut wrote_child: bool = false;
        let mut child_idx: usize = 0;
        if ecur.alive && matches!(ecur.status, Status::OnFire(_)) && ecur.enemy_health.is_some() {
            let dur = match ecur.status {
                Status::OnFire(f) => f.duration,
                _ => 0,
            };
            let nd = tick_ms(dur, dt);
            let h = match ecur.enemy_health {
                Some(hh) => hh.health,
                None => 0,
            };
            proof {
                assert(w0[jj].bounds_ok());
                assert(0 <= stats.fire_dps * dt <= 0x80_0000_0000_0000) by (nonlinear_arith)
                    requires
                        0 <= stats.fire_dps <= 0x4000_0000,
                        0 <= dt <= 0x10_0000,
                ;
                crate::geom::lemma_tdiv_bounds(
                    stats.fire_dps as int * dt as int,
                    1000,
                    0x80_0000_0000_0000,
                );
            }
            let dot = tdiv_i64(stats.fire_dps * (dt as i64), 1000);
            let h1 = clamp_hp_exec(h, dot);
            let mut x = ecur;
            x.status = if nd == 0 {
                Status::Normal
            } else {
                Status::OnFire(OnFire { duration: nd })
            };
            x.enemy_health = Some(EnemyHealth { health: h1 });
            w.ents[j] = x;
            proof {
                assert(ext_considers(w0, jj));
                assert(w@[jj] == ext_apply_at(w0, jj, dt, *stats));
            }
            if nd == 0 {
                if let Some(c) = ecur.visual_child {
                    proof {
                        assert(visual_ok(w0, jj));
                    }
                    let mut y = w.ents[c];
                    if y.alive {
                        y.blink = None;
                        y.flash = Some(FlashingTimer { time_left: 0 });
                        w.ents[c] = y;
                        wrote_child = true;
                        child_idx = c;
                        proof {
                            assert(ext_expiring_parent(w0, jj, c as int, dt));
                            assert(w0[c as int].alive);
                            assert(w@[c as int] == ext_child_fx(w0[c as int]));
                            assert(w@[c as int] == ext_partial(w0, c as int, jj + 1, dt));
                        }
                    }
                }
            }
        } else {
            proof {
                assert(!ext_considers(w0, jj));
                assert(w@[jj] == ext_apply_at(w0, jj, dt, *stats));
            }
        }
        proof {
            assert forall|k: int| jj + 1 <= k < n implies w@[k] == ext_partial(
                w0,
                k,
                jj + 1,
                dt,
            ) by {
                if wrote_child && k == child_idx as int {
                } else {
                    assert(w@[k] == ext_partial(w0, k, jj, dt));
                    if ext_expiring_parent(w0, jj, k, dt) {
                        assert(w0[jj].visual_child == Some(k as usize));
                        if !wrote_child {
                            assert(!w0[k].alive);
                        } else {
                            assert(child_idx as int == k);
                        }
                        if !w0[k].alive {
                            if exists|i: int| i < jj + 1 && ext_expiring_parent(w0, i, k, dt) {
                            }
                        }
                    } else {
                        lemma_ext_partial_same(w0, k, jj, dt);
                    }
                }
            }
        }
        j += 1;
    }
    proof {
        assert forall|k: int| 0 <= k < n implies {
            let a = #[trigger] w@[k];
            let b = w0[k];
            &&& a.parent == b.parent
            &&& a.alive == b.alive
            &&& a.visual_child == b.visual_child
            &&& (a.player is Some <==> b.player is Some)
            &&& (a.snowball is Some <==> b.snowball is Some)
            &&& a.bounds_ok()
        } by {
            assert(w0[k].bounds_ok());
            assert(w@[k] == ext_apply_at(w0, k, dt, *stats));
        }
        crate::world::lemma_wf_pointwise(w0, w@);
    }
}

} // verus!
