//! The simulation world: an arena of entities with parent/child ownership
//! and cascading despawn.
//!
//! Entities are never removed from the arena within a run; despawning
//! clears the `alive` flag of an entity and of every descendant, so
//! indices stay stable across a tick. A child's position is an offset
//! from its parent (as a scene-graph transform is); a root entity's
//! position is in world space.

use vstd::prelude::*;
use crate::geom::{Vec2, dir_in_range, COORD_UNIT, POS_LIMIT};
use crate::components::{
    Player, PlayerHealth, PlayerXp, PlayerSnowball, PoweredUp, Pickup, Projectile, Shield,
    EnemyHealth, EnemyXp, ChasePlayer, Status, Vunerable, Knockback, InvincibleTimer,
    FlashingTimer, Blink, DestroyAfter, HP_CAP, DMG_CAP, MULT_CAP, STRENGTH_CAP, SPEED_CAP,
    SCALE_CAP,
};

verus! {

/// One entity of the simulation world, with every component the combat
/// core may attach. Absent components are `None` (or `false` for bare
/// markers), mirroring the dynamic insert/remove component pattern of
/// an entity-component scene graph.
#[derive(Clone, Copy)]
pub struct Entity {
    pub alive: bool,
    pub parent: Option<usize>,
    pub pos: Vec2,
    pub player: Option<Player>,
    pub player_health: Option<PlayerHealth>,
    pub player_xp: Option<PlayerXp>,
    pub powered_up: Option<PoweredUp>,
    pub snowball: Option<PlayerSnowball>,
    pub enemy: bool,
    pub enemy_health: Option<EnemyHealth>,
    pub enemy_xp: Option<EnemyXp>,
    pub chase: Option<ChasePlayer>,
    pub projectile: Option<Projectile>,
    pub shield: Option<Shield>,
    pub pickup: Option<Pickup>,
    pub status: Status,
    pub check_freeze: bool,
    pub check_fire: bool,
    pub vunerable: Option<Vunerable>,
    pub knockback: Option<Knockback>,
    pub iframes: Option<InvincibleTimer>,
    pub flash: Option<FlashingTimer>,
    pub blink: Option<Blink>,
    pub destroy_after: Option<DestroyAfter>,
    pub visual_child: Option<usize>,
}

impl Entity {
    /// The numeric ranges every component keeps within.
    pub open spec fn bounds_ok(self) -> bool {
        &&& self.pos.in_world()
        &&& (self.knockback matches Some(k) ==> dir_in_range(k.direction) && 0 <= k.strength <= 2
            * STRENGTH_CAP)
        &&& (self.enemy_health matches Some(h) ==> -HP_CAP <= h.health <= HP_CAP)
        &&& (self.player_health matches Some(h) ==> -HP_CAP <= h.hp <= HP_CAP)
        &&& (self.projectile matches Some(p) ==> 0 <= p.damage <= DMG_CAP)
        &&& (self.shield matches Some(s) ==> 0 <= s.damage <= DMG_CAP)
        &&& (self.vunerable matches Some(v) ==> 0 <= v.multiplier <= MULT_CAP)
        &&& (self.chase matches Some(c) ==> 0 <= c.speed <= SPEED_CAP && 0 <= c.radius <= 2
            * POS_LIMIT)
        &&& (self.snowball matches Some(s) ==> 1 <= s.scale_pct <= SCALE_CAP)
        &&& (self.player matches Some(p) ==> p.velocity.in_world())
    }

    /// The same entity, despawned.
    pub open spec fn killed(self) -> Entity {
        Entity { alive: false, ..self }
    }
}

/// A live entity with no components, at a position.
pub open spec fn blank_at(pos: Vec2) -> Entity {
    Entity {
        alive: true,
        parent: None,
        pos: pos,
        player: None,
        player_health: None,
        player_xp: None,
        powered_up: None,
        snowball: None,
        enemy: false,
        enemy_health: None,
        enemy_xp: None,
        chase: None,
        projectile: None,
        shield: None,
        pickup: None,
        status: Status::Normal,
        check_freeze: false,
        check_fire: false,
        vunerable: None,
        knockback: None,
        iframes: None,
        flash: None,
        blink: None,
        destroy_after: None,
        visual_child: None,
    }
}

/// Build a live entity with no components at a position.
pub fn make_blank(pos: Vec2) -> (r: Entity)
    ensures
        r == blank_at(pos),
{
    Entity {
        alive: true,
        parent: None,
        pos: pos,
        player: None,
        player_health: None,
        player_xp: None,
        powered_up: None,
        snowball: None,
        enemy: false,
        enemy_health: None,
        enemy_xp: None,
        chase: None,
        projectile: None,
        shield: None,
        pickup: None,
        status: Status::Normal,
        check_freeze: false,
        check_fire: false,
        vunerable: None,
        knockback: None,
        iframes: None,
        flash: None,
        blink: None,
        destroy_after: None,
        visual_child: None,
    }
}

/// Whether index `j` holds the live player.
pub open spec fn is_live_player(w: Seq<Entity>, j: int) -> bool {
    0 <= j < w.len() && w[j].alive && w[j].player is Some
}

/// Whether index `j` holds the live snowball hitbox.
pub open spec fn is_live_snowball(w: Seq<Entity>, j: int) -> bool {
    0 <= j < w.len() && w[j].alive && w[j].snowball is Some
}

/// Parents come earlier in the arena than their children, a live
/// entity's parent is live (cascading despawn keeps it so), and the
/// scene graph is one level deep: every child of this library — visual
/// sprites, overlays, shields, the snowball — hangs off a root entity.
pub open spec fn parent_ok(w: Seq<Entity>, j: int) -> bool {
    w[j].parent matches Some(p) ==> 0 <= p < j && (w[j].alive ==> w[p as int].alive) && w[p as int].parent is None
}

/// An enemy's visual-sprite child is a later entity whose parent is the
/// enemy.
pub open spec fn visual_ok(w: Seq<Entity>, j: int) -> bool {
    w[j].visual_child matches Some(c) ==> j < c < w.len() && w[c as int].parent == Some(
        j as usize,
    )
}

/// Well-formedness of the whole arena.
pub open spec fn world_wf(w: Seq<Entity>) -> bool {
    &&& forall|j: int| 0 <= j < w.len() ==> (#[trigger] w[j]).bounds_ok()
    &&& forall|j: int| 0 <= j < w.len() ==> parent_ok(w, j)
    &&& forall|j: int| 0 <= j < w.len() ==> visual_ok(w, j)
    &&& forall|i: int, j: int| is_live_player(w, i) && is_live_player(w, j) ==> i == j
    &&& forall|i: int, j: int| is_live_snowball(w, i) && is_live_snowball(w, j) ==> i == j
}

/// Whether `j` is `root` or a descendant of `root` through parent links.
pub open spec fn is_desc(w: Seq<Entity>, root: int, j: int) -> bool
    decreases j,
{
    if j == root {
        true
    } else {
        match w[j].parent {
            Some(p) => if p < j {
                is_desc(w, root, p as int)
            } else {
                false
            },
            None => false,
        }
    }
}

/// The arena after a cascading despawn of `root`: `root` and all its
/// descendants dead, everything else untouched.
pub open spec fn despawned(w: Seq<Entity>, root: int) -> Seq<Entity> {
    Seq::new(
        w.len(),
        |j: int|
            if is_desc(w, root, j) {
                w[j].killed()
            } else {
                w[j]
            },
    )
}

/// Descent only reads parent links, so any transformation that keeps them
/// keeps descent.
pub proof fn lemma_is_desc_same_parents(w1: Seq<Entity>, w2: Seq<Entity>, root: int, j: int)
    requires
        w1.len() == w2.len(),
        forall|k: int| 0 <= k < w1.len() ==> #[trigger] w2[k].parent == w1[k].parent,
        0 <= j < w1.len(),
        forall|k: int| 0 <= k < w1.len() ==> parent_ok(w1, k),
    ensures
        is_desc(w1, root, j) == is_desc(w2, root, j),
    decreases j,
{
    if j != root {
        assert(parent_ok(w1, j));
        match w1[j].parent {
            Some(p) => {
                if p < j {
                    lemma_is_desc_same_parents(w1, w2, root, p as int);
                }
            },
            None => {},
        }
    }
}

/// A descendant never comes before its root in the arena.
pub proof fn lemma_desc_index(w: Seq<Entity>, root: int, j: int)
    requires
        is_desc(w, root, j),
        0 <= j,
    ensures
        j >= root,
    decreases j,
{
    if j != root {
        match w[j].parent {
            Some(p) => {
                if p < j {
                    lemma_desc_index(w, root, p as int);
                }
            },
            None => {},
        }
    }
}

/// Despawning what is already despawned changes nothing: cleanup is
/// idempotent, so descendants are despawned exactly once however many
/// systems despawn the same root in one tick.
pub proof fn lemma_despawn_idempotent(w: Seq<Entity>, root: int)
    requires
        world_wf(w),
        0 <= root < w.len(),
    ensures
        despawned(despawned(w, root), root) == despawned(w, root),
{
    let w1 = despawned(w, root);
    assert forall|j: int| 0 <= j < w.len() implies #[trigger] w1[j].parent == w[j].parent by {}
    assert forall|j: int| 0 <= j < w1.len() implies despawned(w1, root)[j] == w1[j] by {
        lemma_is_desc_same_parents(w, w1, root, j);
        if is_desc(w1, root, j) {
            assert(w1[j] == w[j].killed());
            assert(w1[j].killed() == w1[j]);
        }
    }
    assert(despawned(despawned(w, root), root) =~= despawned(w, root));
}

/// The despawned arena is still well formed.
pub proof fn lemma_despawned_wf(w: Seq<Entity>, root: int)
    requires
        world_wf(w),
        0 <= root < w.len(),
    ensures
        world_wf(despawned(w, root)),
{
    let w1 = despawned(w, root);
    assert forall|j: int| 0 <= j < w1.len() implies (#[trigger] w1[j]).bounds_ok() by {
        assert(w[j].bounds_ok());
    }
    assert forall|j: int| 0 <= j < w1.len() implies parent_ok(w1, j) by {
        assert(parent_ok(w, j));
        match w1[j].parent {
            Some(p) => {
                if w1[j].alive {
                    assert(!is_desc(w, root, j));
                    assert(w[j].alive);
                    assert(w[p as int].alive);
                    if j != root {
                        assert(!is_desc(w, root, p as int));
                    }
                }
            },
            None => {},
        }
    }
    assert forall|j: int| 0 <= j < w1.len() implies visual_ok(w1, j) by {
        assert(visual_ok(w, j));
    }
    assert forall|i: int, j: int|
        is_live_player(w1, i) && is_live_player(w1, j) implies i == j by {
        assert(is_live_player(w, i) && is_live_player(w, j));
    }
    assert forall|i: int, j: int|
        is_live_snowball(w1, i) && is_live_snowball(w1, j) implies i == j by {
        assert(is_live_snowball(w, i) && is_live_snowball(w, j));
    }
}

/// A transformation that keeps every entity's liveness, links and bounds
/// keeps the arena well formed. Every per-entity tick system reuses this.
pub proof fn lemma_wf_pointwise(w0: Seq<Entity>, w1: Seq<Entity>)
    requires
        world_wf(w0),
        w1.len() == w0.len(),
        forall|k: int|
            0 <= k < w0.len() ==> {
                let a = #[trigger] w1[k];
                let b = w0[k];
                &&& a.parent == b.parent
                &&& a.alive == b.alive
                &&& a.visual_child == b.visual_child
                &&& (a.player is Some <==> b.player is Some)
                &&& (a.snowball is Some <==> b.snowball is Some)
                &&& a.bounds_ok()
            },
    ensures
        world_wf(w1),
{
    assert forall|j: int| 0 <= j < w1.len() implies parent_ok(w1, j) by {
        assert(parent_ok(w0, j));
        assert(w1[j] == w1[j]);
    }
    assert forall|j: int| 0 <= j < w1.len() implies visual_ok(w1, j) by {
        assert(visual_ok(w0, j));
    }
    assert forall|i: int, j: int|
        is_live_player(w1, i) && is_live_player(w1, j) implies i == j by {
        assert(is_live_player(w0, i) && is_live_player(w0, j));
    }
    assert forall|i: int, j: int|
        is_live_snowball(w1, i) && is_live_snowball(w1, j) implies i == j by {
        assert(is_live_snowball(w0, i) && is_live_snowball(w0, j));
    }
}

/// Appending a well-bounded root entity that is neither player nor
/// snowball keeps the arena well formed.
pub proof fn lemma_push_root_wf(w: Seq<Entity>, e: Entity)
    requires
        world_wf(w),
        e.bounds_ok(),
        e.parent is None,
        e.visual_child is None,
        e.player is None,
        e.snowball is None,
    ensures
        world_wf(w.push(e)),
{
    let w1 = w.push(e);
    assert forall|j: int| 0 <= j < w1.len() implies (#[trigger] w1[j]).bounds_ok() by {
        if j < w.len() {
            assert(w[j].bounds_ok());
        }
    }
    assert forall|j: int| 0 <= j < w1.len() implies parent_ok(w1, j) by {
        if j < w.len() {
            assert(parent_ok(w, j));
        }
    }
    assert forall|j: int| 0 <= j < w1.len() implies visual_ok(w1, j) by {
        if j < w.len() {
            assert(visual_ok(w, j));
        }
    }
    assert forall|a: int, b: int| is_live_player(w1, a) && is_live_player(w1, b) implies a == b by {
        assert(is_live_player(w, a) && is_live_player(w, b));
    }
    assert forall|a: int, b: int|
        is_live_snowball(w1, a) && is_live_snowball(w1, b) implies a == b by {
        assert(is_live_snowball(w, a) && is_live_snowball(w, b));
    }
}

/// Appending a well-bounded child of a live root entity keeps the arena
/// well formed.
pub proof fn lemma_push_child_wf(w: Seq<Entity>, e: Entity, p: int)
    requires
        world_wf(w),
        e.bounds_ok(),
        0 <= p < w.len(),
        e.parent == Some(p as usize),
        (p as usize) as int == p,
        e.alive ==> w[p].alive,
        w[p].parent is None,
        e.visual_child is None,
        e.player is None,
        e.snowball is None,
    ensures
        world_wf(w.push(e)),
{
    let w1 = w.push(e);
    assert forall|j: int| 0 <= j < w1.len() implies (#[trigger] w1[j]).bounds_ok() by {
        if j < w.len() {
            assert(w[j].bounds_ok());
        }
    }
    assert forall|j: int| 0 <= j < w1.len() implies parent_ok(w1, j) by {
        if j < w.len() {
            assert(parent_ok(w, j));
        }
    }
    assert forall|j: int| 0 <= j < w1.len() implies visual_ok(w1, j) by {
        if j < w.len() {
            assert(visual_ok(w, j));
        }
    }
    assert forall|a: int, b: int| is_live_player(w1, a) && is_live_player(w1, b) implies a == b by {
        assert(is_live_player(w, a) && is_live_player(w, b));
    }
    assert forall|a: int, b: int|
        is_live_snowball(w1, a) && is_live_snowball(w1, b) implies a == b by {
        assert(is_live_snowball(w, a) && is_live_snowball(w, b));
    }
}

/// The simulation world.
pub struct World {
    pub ents: Vec<Entity>,
}

impl View for World {
    type V = Seq<Entity>;

    open spec fn view(&self) -> Seq<Entity> {
        self.ents@
    }
}

impl World {
    pub open spec fn wf(self) -> bool {
        world_wf(self@)
    }

    /// An empty world.
    pub fn new() -> (r: World)
        ensures
            r@.len() == 0,
            r.wf(),
    {
        World { ents: Vec::new() }
    }

    /// How many entity slots the arena holds (live or not).
    pub fn len(&self) -> (r: usize)
        ensures
            r == self@.len(),
    {
        self.ents.len()
    }

    /// Despawn an entity and every descendant, exactly once. Entities
    /// outside the subtree of `root` are untouched.
    pub fn despawn_recursive(&mut self, root: usize)
        requires
            old(self).wf(),
            root < old(self)@.len(),
        ensures
            final(self).wf(),
            final(self)@ == despawned(old(self)@, root as int),
    {
        let ghost w0 = self@;
        let n = self.ents.len();
        let mut e = self.ents[root];
        e.alive = false;
        self.ents[root] = e;
        assert(self@[root as int] == w0[root as int].killed());
        assert forall|k: int| 0 <= k < root implies !is_desc(w0, root as int, k) by {
            if is_desc(w0, root as int, k) {
                lemma_desc_index(w0, root as int, k);
            }
        }
        let mut j = root + 1;
        while j < n
            invariant
                world_wf(w0),
                n == w0.len(),
                self@.len() == n,
                root < j <= n,
                forall|k: int|
                    0 <= k < j ==> self@[k] == (if is_desc(w0, root as int, k) {
                        (#[trigger] w0[k]).killed()
                    } else {
                        w0[k]
                    }),
                forall|k: int| j <= k < n ==> self@[k] == w0[k],
            decreases n - j,
        {
            let ent = self.ents[j];
            assert(ent == w0[j as int]);
            assert(parent_ok(w0, j as int));
            if ent.alive {
                if let Some(p) = ent.parent {
                    if !self.ents[p].alive {
                        let mut x = self.ents[j];
                        x.alive = false;
                        self.ents[j] = x;
                        proof {
                            assert(is_desc(w0, root as int, p as int));
                            assert(is_desc(w0, root as int, j as int));
                        }
                    } else {
                        proof {
                            assert(!is_desc(w0, root as int, p as int) && w0[p as int].alive);
                            assert(j != root);
                            assert(!is_desc(w0, root as int, j as int));
                        }
                    }
                } else {
                    proof {
                        assert(!is_desc(w0, root as int, j as int));
                    }
                }
            } else {
                proof {
                    if is_desc(w0, root as int, j as int) {
                        assert(w0[j as int].killed() == w0[j as int]);
                    }
                }
            }
            j += 1;
        }
        proof {
            assert(self@ =~= despawned(w0, root as int));
            lemma_despawned_wf(w0, root as int);
        }
    }

    /// Find the live player, if there is one. During state transitions
    /// there may legitimately be none; systems then skip their tick.
    pub fn find_player(&self) -> (r: Option<usize>)
        ensures
            match r {
                Some(i) => is_live_player(self@, i as int),
                None => forall|i: int| !is_live_player(self@, i),
            },
    {
        let n = self.ents.len();
        let mut j: usize = 0;
        while j < n
            invariant
                j <= n,
                n == self@.len(),
                forall|i: int| 0 <= i < j ==> !is_live_player(self@, i),
            decreases n - j,
        {
            let ent = self.ents[j];
            if ent.alive && ent.player.is_some() {
                return Some(j);
            }
            j += 1;
        }
        None
    }

    /// Find the live snowball hitbox, if there is one.
    pub fn find_snowball(&self) -> (r: Option<usize>)
        ensures
            match r {
                Some(i) => is_live_snowball(self@, i as int),
                None => forall|i: int| !is_live_snowball(self@, i),
            },
    {
        let n = self.ents.len();
        let mut j: usize = 0;
        while j < n
            invariant
                j <= n,
                n == self@.len(),
                forall|i: int| 0 <= i < j ==> !is_live_snowball(self@, i),
            decreases n - j,
        {
            let ent = self.ents[j];
            if ent.alive && ent.snowball.is_some() {
                return Some(j);
            }
            j += 1;
        }
        None
    }
}

} // verus!
