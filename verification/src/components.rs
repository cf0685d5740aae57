//! The data attached to entities and the shared configuration and
//! resources the combat systems read: health, experience, status-effect
//! timers, knockback impulses, and the per-run player statistics snapshot.
//!
//! Scalar magnitudes (health, damage, knockback strength, experience) are
//! fixed-point with `geom::SCALAR_ONE` steps per point; times are in
//! milliseconds; chances are whole percentages.

use vstd::prelude::*;
use crate::geom::{Vec2, dir_in_range, COORD_UNIT, POS_LIMIT, SCALAR_ONE};

verus! {

/// Post-hit invincibility, one tenth of a second.
pub const IFRAME_DURATION_MS: u32 = 100;

/// How long a hit-flash visual cue stays on.
pub const FLASH_DURATION_MS: u32 = 100;

/// How long a collected power-up lasts.
pub const POWERUP_DURATION_MS: u32 = 5000;

/// Largest simulation step the systems accept.
pub const DT_LIMIT_MS: u32 = 0x10_0000;

/// Health and timer magnitudes are clamped into `-HP_CAP ..= HP_CAP`.
pub const HP_CAP: i64 = 0x100_0000_0000;

/// Largest damage figure a single source may carry.
pub const DMG_CAP: i64 = 0x4000_0000;

/// Largest single health change any one application produces.
pub const DELTA_CAP: i64 = 0x80_0000_0000_0000;

/// Damage multipliers are percentages, at most `MULT_CAP` (a hundredfold).
pub const MULT_CAP: i64 = 10000;

/// Largest knockback strength.
pub const STRENGTH_CAP: i64 = 0x10_0000;

/// Largest chase speed, in coordinate steps per second.
pub const SPEED_CAP: i64 = 0x4000_0000;

/// Largest snowball visual scale, in percent.
pub const SCALE_CAP: i64 = 0x8_0000;

/// Contact damage an enemy deals to the player: 3.0 points.
pub const CONTACT_DAMAGE: i64 = 300;

/// Passive heal the player gets when an enemy dies: 0.2 points.
pub const KILL_HEAL: i64 = 20;

/// Base damage of the powered-up snowball before its multiplier: 25.0.
pub const POWERED_BASE_DAMAGE: i64 = 2500;

/// Experience carried by one orb: 1.0.
pub const XP_PER_ORB: u32 = 100;

/// How much the experience requirement grows per upgrade round: 4.0.
pub const XP_REQUIREMENT_STEP: u32 = 400;

/// Projectile, shield, experience and pickup interactions all trigger
/// within sixteen world units.
pub const HIT_RANGE: i64 = 16 * COORD_UNIT;

/// Base radius of the snowball hitbox at scale 1.0: ten world units.
pub const SNOWBALL_BASE_RADIUS: i64 = 10 * COORD_UNIT;

/// Health of an enemy, in scalar steps. It may go negative transiently
/// until the cleanup pass removes the entity; it is never resurrected.
#[derive(Clone, Copy, PartialEq, Eq, Structural, Debug)]
pub struct EnemyHealth {
    pub health: i64,
}

/// Experience carried by an orb dropped at an enemy's death.
#[derive(Clone, Copy, PartialEq, Eq, Structural, Debug)]
pub struct EnemyXp {
    pub xp: u32,
}

/// Chase behaviour: move toward the player at `speed` coordinate steps
/// per second while within `radius` coordinate steps.
#[derive(Clone, Copy, PartialEq, Eq, Structural, Debug)]
pub struct ChasePlayer {
    pub speed: i64,
    pub radius: i64,
}

/// The frozen status effect: chase and wiggle are suppressed while it lasts.
#[derive(Clone, Copy, PartialEq, Eq, Structural, Debug)]
pub struct Frozen {
    pub duration: u32,
}

/// The burning status effect: damage-over-time while it lasts.
#[derive(Clone, Copy, PartialEq, Eq, Structural, Debug)]
pub struct OnFire {
    pub duration: u32,
}

/// Incoming projectile and shield damage is multiplied while this lasts.
#[derive(Clone, Copy, PartialEq, Eq, Structural, Debug)]
pub struct Vunerable {
    pub multiplier: i64,
    pub duration: u32,
}

/// The freeze / fire state of an enemy. The two effects are mutually
/// exclusive by construction: an entity holds at most one of them.
#[derive(Clone, Copy, PartialEq, Eq, Structural, Debug)]
pub enum Status {
    Normal,
    Frozen(Frozen),
    OnFire(OnFire),
}

impl Status {
    pub open spec fn is_frozen(self) -> bool {
        self is Frozen
    }

    pub open spec fn is_on_fire(self) -> bool {
        self is OnFire
    }
}

/// A decaying positional impulse. The displacement each tick is
/// `direction * strength` in coordinate steps; strength then falls by the
/// caller's friction constant and the impulse is removed at zero.
#[derive(Clone, Copy, PartialEq, Eq, Structural, Debug)]
pub struct Knockback {
    pub direction: Vec2,
    pub strength: i64,
}

/// Post-hit invincibility window; further damage from the same category
/// is suppressed until it expires.
#[derive(Clone, Copy, PartialEq, Eq, Structural, Debug)]
pub struct InvincibleTimer {
    pub time_left: u32,
}

/// A timed flash-to-colour visual cue, handed to the renderer.
#[derive(Clone, Copy, PartialEq, Eq, Structural, Debug)]
pub struct FlashingTimer {
    pub time_left: u32,
}

/// A looping blink visual cue, handed to the renderer; the speed is in
/// hundredths of a cycle per second.
#[derive(Clone, Copy, PartialEq, Eq, Structural, Debug)]
pub struct Blink {
    pub speed: u32,
}

/// Timed self-destruction: the entity despawns (cascading to children)
/// when the countdown reaches zero.
#[derive(Clone, Copy, PartialEq, Eq, Structural, Debug)]
pub struct DestroyAfter {
    pub duration: u32,
}

/// The time-limited powered-up state granted by a pickup.
#[derive(Clone, Copy, PartialEq, Eq, Structural, Debug)]
pub struct PoweredUp {
    pub time_left: u32,
}

/// A fired projectile: damage per hit and how many enemies it may pierce
/// before being destroyed.
#[derive(Clone, Copy, PartialEq, Eq, Structural, Debug)]
pub struct Projectile {
    pub damage: i64,
    pub pierce_amount: i32,
}

/// An orbiting shield: persistent, never destroyed by hits. Its position
/// is an offset from the player it is attached to.
#[derive(Clone, Copy, PartialEq, Eq, Structural, Debug)]
pub struct Shield {
    pub damage: i64,
}

/// The player's movement state read by contact resolution.
#[derive(Clone, Copy, PartialEq, Eq, Structural, Debug)]
pub struct Player {
    pub velocity: Vec2,
}

/// Experience accumulated by the player.
#[derive(Clone, Copy, PartialEq, Eq, Structural, Debug)]
pub struct PlayerXp {
    pub xp: u32,
}

/// The player's health, in scalar steps.
#[derive(Clone, Copy, PartialEq, Eq, Structural, Debug)]
pub struct PlayerHealth {
    pub hp: i64,
}

/// The player's damage-dealing hitbox; its visual scale (percent) sets
/// the contact radius.
#[derive(Clone, Copy, PartialEq, Eq, Structural, Debug)]
pub struct PlayerSnowball {
    pub scale_pct: i64,
}

/// A collectable power-up item.
#[derive(Clone, Copy, PartialEq, Eq, Structural, Debug)]
pub struct Pickup;

/// Live-enemy population bookkeeping for spawn pacing.
#[derive(Clone, Copy, PartialEq, Eq, Structural, Debug)]
pub struct EnemyCount {
    pub enemy_count: i32,
    pub max_enemies: i32,
    pub min_enemies: i32,
}

/// Spawn pacing state: per-enemy and per-wave countdowns, and the switch
/// to the late-run aggressive pacing.
#[derive(Clone, Copy, PartialEq, Eq, Structural, Debug)]
pub struct EnemyTimer {
    pub spawn_time: i64,
    pub wave_time: i64,
    pub next_enemy_time: i64,
    pub next_enemy_reached: bool,
    pub default_time: i64,
    pub agressive_time: i64,
}

/// The in-game flow state the combat core may request transitions of.
#[derive(Clone, Copy, PartialEq, Eq, Structural, Debug)]
pub enum GameState {
    Playing,
    Paused,
    Upgrade,
}

/// The application flow state the combat core may request transitions of.
#[derive(Clone, Copy, PartialEq, Eq, Structural, Debug)]
pub enum AppState {
    MainMenu,
    InGame,
    GameOver,
    Settings,
    Credits,
    Tutorial,
}

/// The upgrade-driven configuration snapshot, read-only to the core.
/// Scalars are fixed-point (`SCALAR_ONE` per point), chances whole
/// percentages, multipliers percentages, durations milliseconds.
#[derive(Clone, Copy, PartialEq, Eq, Structural, Debug)]
pub struct PlayerStats {
    pub xp_requirement: u32,
    pub damage: i64,
    pub num_shields: u32,
    pub shield_damage: i64,
    pub shield_apply_effects: bool,
    pub projectile_piercing: i32,
    pub freeze_chance: i32,
    pub freeze_duration: u32,
    pub fire_chance: i32,
    pub fire_duration: u32,
    pub fire_dps: i64,
    pub flash_freeze: bool,
    pub flash_freeze_percent_damage: i64,
    pub freezer_burn: bool,
    pub freezer_burn_duration: u32,
    pub freezer_burn_multiplier: i64,
    pub snowball_damage_multiplier: i64,
    pub knockback_strength: i64,
    pub max_collision_radius: i64,
}

impl PlayerStats {
    /// The ranges the upgrade collaborator keeps the snapshot within.
    pub open spec fn wf(self) -> bool {
        &&& 0 <= self.damage <= DMG_CAP
        &&& 0 <= self.shield_damage <= DMG_CAP
        &&& 0 <= self.fire_dps <= DMG_CAP
        &&& 0 <= self.flash_freeze_percent_damage <= 100
        &&& 0 <= self.freezer_burn_multiplier <= MULT_CAP
        &&& 0 <= self.snowball_damage_multiplier <= MULT_CAP
        &&& 0 <= self.knockback_strength <= STRENGTH_CAP
        &&& 0 <= self.max_collision_radius <= 2 * POS_LIMIT
    }

    /// The configuration a fresh run starts from.
    pub fn starting() -> (r: PlayerStats)
        ensures
            r == (PlayerStats {
                xp_requirement: 1000,
                damage: 3400,
                num_shields: 0,
                shield_damage: 1000,
                shield_apply_effects: false,
                projectile_piercing: 0,
                freeze_chance: 0,
                freeze_duration: 5000,
                fire_chance: 0,
                fire_duration: 5000,
                fire_dps: 1000,
                flash_freeze: false,
                flash_freeze_percent_damage: 15,
                freezer_burn: false,
                freezer_burn_duration: 2000,
                freezer_burn_multiplier: 200,
                snowball_damage_multiplier: 100,
                knockback_strength: 300,
                max_collision_radius: (500 * COORD_UNIT) as i64,
            }),
            r.wf(),
    {
        PlayerStats {
            xp_requirement: 1000,
            damage: 3400,
            num_shields: 0,
            shield_damage: 1000,
            shield_apply_effects: false,
            projectile_piercing: 0,
            freeze_chance: 0,
            freeze_duration: 5000,
            fire_chance: 0,
            fire_duration: 5000,
            fire_dps: 1000,
            flash_freeze: false,
            flash_freeze_percent_damage: 15,
            freezer_burn: false,
            freezer_burn_duration: 2000,
            freezer_burn_multiplier: 200,
            snowball_damage_multiplier: 100,
            knockback_strength: 300,
            max_collision_radius: 500 * COORD_UNIT,
        }
    }
}

/// Health values are clamped into `-HP_CAP ..= HP_CAP`; within that range
/// every change in this library is exact.
pub open spec fn clamp_hp(x: int) -> int {
    if x < -HP_CAP {
        -HP_CAP as int
    } else if x > HP_CAP {
        HP_CAP as int
    } else {
        x
    }
}

/// Add a heal to a health value, clamped at the cap.
pub fn hp_add(h: i64, amount: i64) -> (r: i64)
    requires
        -HP_CAP <= h <= HP_CAP,
        0 <= amount <= DELTA_CAP,
    ensures
        r == clamp_hp(h + amount),
{
    let moved = h + amount;
    if moved > HP_CAP {
        HP_CAP
    } else {
        moved
    }
}

/// One countdown step: subtract `dt`, floored at zero. The result is zero
/// exactly when the timer has run out this tick.
pub open spec fn ticked(t: u32, dt: u32) -> u32 {
    if t > dt {
        (t - dt) as u32
    } else {
        0
    }
}

/// Tick a millisecond countdown.
pub fn tick_ms(t: u32, dt: u32) -> (r: u32)
    ensures
        r == ticked(t, dt),
{
    if t > dt {
        t - dt
    } else {
        0
    }
}

/// Saturating decrement of a population counter.
pub fn dec_count(c: i32) -> (r: i32)
    ensures
        r == if c > i32::MIN {
            c - 1
        } else {
            c as int
        },
{
    if c > i32::MIN {
        c - 1
    } else {
        c
    }
}

/// Saturating increment of a population counter.
pub fn inc_count(c: i32) -> (r: i32)
    ensures
        r == if c < i32::MAX {
            c + 1
        } else {
            c as int
        },
{
    if c < i32::MAX {
        c + 1
    } else {
        c
    }
}

/// A percent-chance trial: the effect triggers when the configured chance
/// is at least the uniform draw from `1 ..= 99`. A chance of at least 99
/// always triggers; a chance below 1 never does.
pub open spec fn chance_hits(chance: i32, draw: i32) -> bool {
    chance >= draw
}

} // verus!
