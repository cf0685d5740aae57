//! Knockback physics: a decaying positional impulse per entity.
//!
//! Each tick an impulsed entity moves by `direction * strength`; the
//! strength then falls by the caller's friction constant, floored at
//! zero, and the impulse is removed the moment it reaches zero. A new
//! collision overwrites an existing impulse rather than stacking it, so
//! an entity never carries more than one.

use vstd::prelude::*;
use crate::geom::{Vec2, moved_pos, DISP_LIMIT};
use crate::components::{Knockback, STRENGTH_CAP};
use crate::world::{Entity, World, world_wf, lemma_wf_pointwise};

verus! {

/// What one knockback tick does to one entity: displace by
/// `direction * strength`, decay the strength by `friction` (floored at
/// zero), and drop the impulse once the strength is zero.
pub open spec fn kb_step(e: Entity, friction: int) -> Entity {
    if e.alive && e.knockback is Some {
        let k = e.knockback->0;
        let npos = moved_pos(e.pos, k.direction.x * k.strength, k.direction.y * k.strength);
        let ns = if k.strength > friction {
            k.strength - friction
        } else {
            0
        };
        Entity {
            pos: npos,
            knockback: if ns == 0 {
                None
            } else {
                Some(Knockback { direction: k.direction, strength: ns as i64 })
            },
            ..e
        }
    } else {
        e
    }
}

/// Advance every impulsed entity by one knockback tick.
pub fn knockback_system(w: &mut World, friction: i64)
    requires
        old(w).wf(),
        0 < friction <= STRENGTH_CAP,
    ensures
        final(w).wf(),
        final(w)@.len() == old(w)@.len(),
        forall|i: int|
            0 <= i < old(w)@.len() ==> final(w)@[i] == kb_step(old(w)@[i], friction as int),
{
    let ghost w0 = w@;
    let n = w.ents.len();
    let mut j: usize = 0;
    while j < n
        invariant
            world_wf(w0),
            0 < friction <= STRENGTH_CAP,
            n == w0.len(),
            w@.len() == n,
            j <= n,
            forall|k: int| 0 <= k < j ==> w@[k] == kb_step(#[trigger] w0[k], friction as int),
            forall|k: int| j <= k < n ==> w@[k] == w0[k],
        decreases n - j,
    {
        let e = w.ents[j];
        if e.alive {
            if let Some(k) = e.knockback {
                proof {
                    assert(w0[j as int].bounds_ok());
                    assert(-DISP_LIMIT <= k.direction.x * k.strength <= DISP_LIMIT)
                        by (nonlinear_arith)
                        requires
                            -256 <= k.direction.x <= 256,
                            0 <= k.strength <= 0x20_0000,
                            DISP_LIMIT == 0x1_0000_0000,
                    ;
                    assert(-DISP_LIMIT <= k.direction.y * k.strength <= DISP_LIMIT)
                        by (nonlinear_arith)
                        requires
                            -256 <= k.direction.y <= 256,
                            0 <= k.strength <= 0x20_0000,
                            DISP_LIMIT == 0x1_0000_0000,
                    ;
                }
                let dx = k.direction.x * k.strength;
                let dy = k.direction.y * k.strength;
                let npos = crate::geom::move_pos(e.pos, dx, dy);
                let ns = if k.strength > friction {
                    k.strength - friction
                } else {
                    0
                };
                let mut x = e;
                x.pos = npos;
                x.knockback = if ns == 0 {
                    None
                } else {
                    Some(Knockback { direction: k.direction, strength: ns })
                };
                w.ents[j] = x;
            }
        }
        j += 1;
    }
    proof {
        assert forall|k: int| 0 <= k < n implies {
            let a = #[trigger] w@[k];
            let b = w0[k];
            &&& a.parent == b.parent
            &&& a.alive == b.alive
            &&& a.visual_child == b.visual_child
            &&& (a.player is Some <==> b.player is Some)
            &&& (a.snowball is Some <==> b.snowball is Some)
            &&& a.bounds_ok()
        } by {
            assert(w0[k].bounds_ok());
            assert(w@[k] == kb_step(w0[k], friction as int));
        }
        lemma_wf_pointwise(w0, w@);
    }
}

/// The strength left after `t` knockback ticks from strength `s` with
/// friction `f`.
pub open spec fn kb_strength_after(s: int, f: int, t: nat) -> int
    decreases t,
{
    if t == 0 {
        s
    } else {
        let prev = kb_strength_after(s, f, (t - 1) as nat);
        if prev > f {
            prev - f
        } else {
            0
        }
    }
}

/// The decay sum: total scalar travel over the first `t` ticks, the sum
/// of the per-tick strengths `s, s - f, s - 2f, ...` floored at zero.
pub open spec fn kb_travel(s: int, f: int, t: nat) -> int
    decreases t,
{
    if t == 0 {
        0
    } else {
        kb_travel(s, f, (t - 1) as nat) + kb_strength_after(s, f, (t - 1) as nat)
    }
}

/// How many ticks an impulse of strength `s` takes to rest at friction
/// `f`: the ceiling of `s / f`.
pub open spec fn kb_ticks_to_rest(s: int, f: int) -> nat
    decreases (if s > 0 {
        s
    } else {
        0
    }) when f > 0
{
    if s <= 0 {
        0
    } else {
        1 + kb_ticks_to_rest(s - f, f)
    }
}

/// The tick count really is the ceiling of `s / f`.
pub proof fn lemma_ticks_is_ceil(s: int, f: int)
    requires
        0 <= s,
        0 < f,
    ensures
        kb_ticks_to_rest(s, f) == (s + f - 1) / f,
    decreases s,
{
    if s <= 0 {
        assert((f - 1) / f == 0) by {
            vstd::arithmetic::div_mod::lemma_basic_div(f - 1, f);
        }
    } else if s - f <= 0 {
        assert(kb_ticks_to_rest(s - f, f) == 0);
        assert((s + f - 1) / f == 1) by {
            vstd::arithmetic::div_mod::lemma_div_plus_one(s - 1, f);
            vstd::arithmetic::div_mod::lemma_basic_div(s - 1, f);
        }
    } else {
        lemma_ticks_is_ceil(s - f, f);
        assert((s + f - 1) / f == (s - f + f - 1) / f + 1) by {
            vstd::arithmetic::div_mod::lemma_div_plus_one(s - f + f - 1, f);
        }
    }
}

/// Knockback decay law: an impulse of strength `s` under friction `f`
/// rests after exactly `ceil(s / f)` ticks; the strength is positive on
/// every earlier tick and exactly zero (never negative) on the final
/// one; and the cumulative scalar travel is the decay sum of the
/// per-tick strengths.
pub proof fn lemma_knockback_decay(s: int, f: int, t: nat)
    requires
        0 <= s,
        0 < f,
    ensures
        kb_strength_after(s, f, kb_ticks_to_rest(s, f)) == 0,
        t < kb_ticks_to_rest(s, f) ==> kb_strength_after(s, f, t) > 0,
        kb_strength_after(s, f, t) >= 0,
        kb_travel(s, f, kb_ticks_to_rest(s, f)) == kb_decay_sum(s, f),
    decreases t, kb_ticks_to_rest(s, f),
{
    lemma_kb_shift(s, f, kb_ticks_to_rest(s, f));
    lemma_kb_nonneg(s, f, t);
    lemma_kb_positive(s, f, t);
    lemma_kb_travel_sum(s, f);
}

/// The decay sum `s + (s - f) + (s - 2f) + ...`, stopping at zero.
pub open spec fn kb_decay_sum(s: int, f: int) -> int
    decreases (if s > 0 {
        s
    } else {
        0
    }) when f > 0
{
    if s <= 0 {
        0
    } else {
        s + kb_decay_sum(s - f, f)
    }
}

/// Strength is never negative.
proof fn lemma_kb_nonneg(s: int, f: int, t: nat)
    requires
        0 <= s,
        0 < f,
    ensures
        kb_strength_after(s, f, t) >= 0,
    decreases t,
{
    if t > 0 {
        lemma_kb_nonneg(s, f, (t - 1) as nat);
    }
}

/// One simulated tick from strength `s` corresponds to starting one tick
/// later from `s - f`.
proof fn lemma_kb_shift_step(s: int, f: int, t: nat)
    requires
        0 < f,
        s > 0,
    ensures
        kb_strength_after(s, f, (t + 1) as nat) == kb_strength_after(
            if s > f {
                s - f
            } else {
                0
            },
            f,
            t,
        ),
    decreases t,
{
    if t == 0 {
        assert(kb_strength_after(s, f, 0) == s);
        assert(kb_strength_after(
            if s > f {
                s - f
            } else {
                0
            },
            f,
            0,
        ) == if s > f {
            s - f
        } else {
            0
        });
    } else {
        lemma_kb_shift_step(s, f, (t - 1) as nat);
    }
}

/// After `kb_ticks_to_rest(s, f)` ticks the strength is exactly zero.
proof fn lemma_kb_shift(s: int, f: int, t: nat)
    requires
        0 <= s,
        0 < f,
        t == kb_ticks_to_rest(s, f),
    ensures
        kb_strength_after(s, f, t) == 0,
    decreases t,
{
    if s > 0 {
        let s2 = if s > f {
            s - f
        } else {
            0
        };
        assert(kb_ticks_to_rest(s, f) == 1 + kb_ticks_to_rest(s - f, f));
        assert(kb_ticks_to_rest(s2, f) == kb_ticks_to_rest(s - f, f));
        lemma_kb_shift(s2, f, (t - 1) as nat);
        lemma_kb_shift_step(s, f, (t - 1) as nat);
    }
}

/// Before the resting tick the strength is strictly positive.
proof fn lemma_kb_positive(s: int, f: int, t: nat)
    requires
        0 <= s,
        0 < f,
    ensures
        t < kb_ticks_to_rest(s, f) ==> kb_strength_after(s, f, t) > 0,
    decreases t,
{
    if t > 0 && t < kb_ticks_to_rest(s, f) {
        lemma_kb_positive(s, f, (t - 1) as nat);
        let prev = kb_strength_after(s, f, (t - 1) as nat);
        if prev <= f {
            lemma_kb_rest_when_zero(s, f, t);
        }
    }
}

/// Once the strength reaches zero the countdown is over.
proof fn lemma_kb_rest_when_zero(s: int, f: int, t: nat)
    requires
        0 <= s,
        0 < f,
        t >= 1,
        kb_strength_after(s, f, t) == 0,
    ensures
        kb_ticks_to_rest(s, f) <= t,
    decreases t,
{
    if s > 0 {
        let s2 = if s > f {
            s - f
        } else {
            0
        };
        lemma_kb_shift_step(s, f, (t - 1) as nat);
        if t == 1 {
            assert(kb_strength_after(s2, f, 0) == s2);
            assert(kb_ticks_to_rest(s2, f) == 0);
            assert(kb_ticks_to_rest(s, f) == 1 + kb_ticks_to_rest(s - f, f));
            assert(kb_ticks_to_rest(s2, f) == kb_ticks_to_rest(s - f, f));
        } else {
            lemma_kb_rest_when_zero(s2, f, (t - 1) as nat);
            assert(kb_ticks_to_rest(s, f) == 1 + kb_ticks_to_rest(s - f, f));
            assert(kb_ticks_to_rest(s2, f) == kb_ticks_to_rest(s - f, f));
        }
    }
}

/// Total travel over the whole countdown equals the decay sum.
proof fn lemma_kb_travel_sum(s: int, f: int)
    requires
        0 <= s,
        0 < f,
    ensures
        kb_travel(s, f, kb_ticks_to_rest(s, f)) == kb_decay_sum(s, f),
    decreases kb_ticks_to_rest(s, f),
{
    let t = kb_ticks_to_rest(s, f);
    if s > 0 {
        let s2 = if s > f {
            s - f
        } else {
            0
        };
        assert(kb_ticks_to_rest(s2, f) == kb_ticks_to_rest(s - f, f));
        lemma_kb_travel_sum(s2, f);
        lemma_kb_travel_shift(s, f, (t - 1) as nat);
        assert(kb_decay_sum(s2, f) == kb_decay_sum(s - f, f));
    }
}

/// Travel from strength `s` over `t + 1` ticks is `s` plus travel from
/// the decayed strength over `t` ticks.
proof fn lemma_kb_travel_shift(s: int, f: int, t: nat)
    requires
        0 < f,
        s > 0,
    ensures
        kb_travel(s, f, (t + 1) as nat) == s + kb_travel(
            if s > f {
                s - f
            } else {
                0
            },
            f,
            t,
        ),
    decreases t,
{
    if t == 0 {
        assert(kb_travel(s, f, 0) == 0);
        assert(kb_strength_after(s, f, 0) == s);
        assert(kb_travel(
            if s > f {
                s - f
            } else {
                0
            },
            f,
            0,
        ) == 0);
    } else {
        lemma_kb_travel_shift(s, f, (t - 1) as nat);
        lemma_kb_shift_step(s, f, (t - 1) as nat);
    }
}

} // verus!
