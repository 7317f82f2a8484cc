//! Resolution of a move: the chain of pushed objects, what happens at its front,
//! the objects pulled behind the mover, and the resulting world and events.

use vstd::prelude::*;
use crate::coords::{Coord, dirs, four_directions, in_bounds, is_dir, offset, scale, spec_add};
use crate::obj::{Obj, Tile};
use crate::events::{LogicalEvent, LogicalTransition, TransitionView};
use crate::world::{LogicalWorld, WorldView, obj_at, with_obj};

verus! {

/// What happens when the front of a blocked push chain meets what blocks it.
#[derive(Clone, Copy, PartialEq, Eq, Debug, Structural)]
pub enum InteractionConsequences {
    /// The target is hurt and stays: the push fails.
    NonLethalHit { damages: i32 },
    /// The target dies; `damages` is what the weapon dealt, even above the
    /// remaining hit points.
    Kill { damages: i32 },
    /// A pickaxe mines a wall.
    Mine,
    /// A key opens a door; both are used up.
    KeyOpenDoor,
    /// An object leaves the level through the exit at `at`.
    Exit { at: Coord },
    /// The bunny eats a heart.
    Heal,
    /// The bunny eats a redo heart.
    GainARedo,
    /// Something stomps on a shroom.
    StompShroom,
}

impl InteractionConsequences {
    pub open spec fn spec_allows_move(&self) -> bool {
        !(self is NonLethalHit)
    }

    /// Does this interaction clear the way so that the push succeeds?
    #[verifier::when_used_as_spec(spec_allows_move)]
    pub fn allows_move(&self) -> (r: bool)
        ensures
            r == self.spec_allows_move(),
    {
        match self {
            InteractionConsequences::NonLethalHit { .. } => false,
            InteractionConsequences::Kill { .. }
            | InteractionConsequences::Mine
            | InteractionConsequences::StompShroom
            | InteractionConsequences::KeyOpenDoor
            | InteractionConsequences::Heal
            | InteractionConsequences::GainARedo
            | InteractionConsequences::Exit { .. } => true,
        }
    }
}

/// The interaction table, first match wins: `src` pushed in vain into `dst`,
/// which stands at `at`.
pub open spec fn interaction(src: Obj, dst: Obj, at: Coord) -> Option<InteractionConsequences> {
    if dst is Exit {
        Some(InteractionConsequences::Exit { at })
    } else if src is Pickaxe && dst is Wall {
        Some(InteractionConsequences::Mine)
    } else if src is Key && dst is Door {
        Some(InteractionConsequences::KeyOpenDoor)
    } else if src is Bunny && dst is Heart {
        Some(InteractionConsequences::Heal)
    } else if src is Bunny && dst is RedoHeart {
        Some(InteractionConsequences::GainARedo)
    } else if dst is Shroom {
        Some(InteractionConsequences::StompShroom)
    } else if dst.spec_hp() is Some {
        if dst.spec_hp()->0 <= src.spec_damages() {
            Some(InteractionConsequences::Kill { damages: src.spec_damages() })
        } else {
            Some(InteractionConsequences::NonLethalHit { damages: src.spec_damages() })
        }
    } else {
        None
    }
}

/// How the forward walk of a push ends, with the index of the tile where it ends.
pub enum ScanEnd {
    /// An empty tile: everything before it can move.
    Empty(nat),
    /// No tile at all: the edge of the world.
    Edge(nat),
    /// The object there exhausts the force.
    Blocked(nat),
}

/// The tile `k` steps from the mover `m` along `d`, as a map key, with no wrap-around.
pub open spec fn exact(m: Coord, d: Coord, k: int) -> bool {
    &&& i32::MIN <= m.x + scale(k, d.x) <= i32::MAX
    &&& i32::MIN <= m.y + scale(k, d.y) <= i32::MAX
}

/// The tile `k` steps along the ray exists and holds an object.
pub open spec fn occupied(g: Map<Coord, Tile>, m: Coord, d: Coord, k: int) -> bool {
    g.contains_key(offset(m, d, k)) && obj_at(g, offset(m, d, k)) is Some
}

/// Walks forward from tile `i` of the ray with `rem` force left.
pub open spec fn push_scan(
    g: Map<Coord, Tile>,
    m: Coord,
    d: Coord,
    rem: int,
    i: nat,
) -> ScanEnd
    decreases rem,
{
    let c = offset(m, d, i as int);
    if !g.contains_key(c) {
        ScanEnd::Edge(i)
    } else {
        match g[c].obj {
            None => ScanEnd::Empty(i),
            Some(o) => if rem - o.spec_mass() < 0 {
                ScanEnd::Blocked(i)
            } else {
                push_scan(g, m, d, rem - o.spec_mass(), i + 1)
            },
        }
    }
}

/// The outcome of the push phase.
pub struct PushPlan {
    pub success: bool,
    /// Objects that move or fail to move, the mover included.
    pub length: nat,
    pub interaction: Option<InteractionConsequences>,
}

/// The interaction of the objects at tiles `j - 1` and `j` of the ray, if any.
pub open spec fn interaction_at(
    g: Map<Coord, Tile>,
    m: Coord,
    d: Coord,
    j: int,
) -> Option<InteractionConsequences> {
    match (obj_at(g, offset(m, d, j - 1)), obj_at(g, offset(m, d, j))) {
        (Some(s), Some(t)) => interaction(s, t, offset(m, d, j)),
        _ => None,
    }
}

/// Searches backwards from tile `j` of a chain blocked at tile `b` for an
/// interaction; the chain is cut right after the first one found.
pub open spec fn back_scan(
    g: Map<Coord, Tile>,
    m: Coord,
    d: Coord,
    b: nat,
    j: nat,
) -> PushPlan
    decreases j,
{
    if j == 0 {
        PushPlan { success: false, length: b, interaction: None }
    } else {
        match interaction_at(g, m, d, j as int) {
            Some(ic) => PushPlan { success: ic.spec_allows_move(), length: j, interaction: Some(ic) },
            None => back_scan(g, m, d, b, (j - 1) as nat),
        }
    }
}

/// The push phase of the mover at `m` moving along `d` with force `f`.
pub open spec fn push_plan(g: Map<Coord, Tile>, m: Coord, d: Coord, f: int) -> PushPlan {
    match push_scan(g, m, d, f, 1) {
        ScanEnd::Empty(i) => PushPlan { success: true, length: i, interaction: None },
        ScanEnd::Edge(i) => PushPlan { success: false, length: i, interaction: None },
        ScanEnd::Blocked(b) => back_scan(g, m, d, b, b),
    }
}

/// How many objects behind the mover follow it, starting `k` tiles behind with
/// `rem` force left: a rope is always pulled, and whatever directly follows a
/// pulled rope is pulled too.
pub open spec fn pull_count(
    g: Map<Coord, Tile>,
    m: Coord,
    d: Coord,
    rem: int,
    k: nat,
    after_rope: bool,
) -> nat
    decreases rem,
{
    match obj_at(g, offset(m, d, -(k + 1))) {
        Some(o) => if (o is Rope || after_rope) && rem - o.spec_mass() >= 0 {
            1 + pull_count(g, m, d, rem - o.spec_mass(), k + 1, o is Rope)
        } else {
            0
        },
        None => 0,
    }
}

pub open spec fn pull_length(g: Map<Coord, Tile>, m: Coord, d: Coord, f: int) -> nat {
    pull_count(g, m, d, f, 0, false)
}

pub proof fn lemma_step(m: Coord, d: Coord, k: int)
    requires
        is_dir(d),
        exact(m, d, k),
        in_bounds(offset(m, d, k)),
    ensures
        exact(m, d, k + 1),
        exact(m, d, k - 1),
        offset(m, d, k + 1) == spec_add(offset(m, d, k), d),
        offset(m, d, k + 1).x == offset(m, d, k).x + d.x,
        offset(m, d, k + 1).y == offset(m, d, k).y + d.y,
        offset(m, d, k - 1).x == offset(m, d, k).x - d.x,
        offset(m, d, k - 1).y == offset(m, d, k).y - d.y,
{
}

/// Distinct steps along a ray are distinct tiles.
pub proof fn lemma_distinct(m: Coord, d: Coord, i: int, j: int)
    requires
        is_dir(d),
        exact(m, d, i),
        exact(m, d, j),
        i != j,
    ensures
        offset(m, d, i) != offset(m, d, j),
{
}

/// Every tile of the grid lies within bounds.
pub open spec fn keys_in_bounds(g: Map<Coord, Tile>) -> bool {
    forall|c: Coord| #[trigger] g.contains_key(c) ==> in_bounds(c)
}

/// The first `n + 1` tiles of the ray, the mover's included, hold objects.
pub open spec fn chain_occupied(g: Map<Coord, Tile>, m: Coord, d: Coord, n: int) -> bool {
    forall|k: int| 0 <= k <= n ==> #[trigger] occupied(g, m, d, k) && exact(m, d, k)
}

pub proof fn lemma_push_scan(g: Map<Coord, Tile>, m: Coord, d: Coord, rem: int, i: nat)
    requires
        is_dir(d),
        keys_in_bounds(g),
        i >= 1,
        chain_occupied(g, m, d, i - 1),
    ensures
        match push_scan(g, m, d, rem, i) {
            ScanEnd::Empty(n) => n >= i && g.contains_key(offset(m, d, n as int)) && obj_at(
                g,
                offset(m, d, n as int),
            ) is None && exact(m, d, n as int) && chain_occupied(g, m, d, n - 1),
            ScanEnd::Edge(n) => n >= i && !g.contains_key(offset(m, d, n as int)) && exact(
                m,
                d,
                n as int,
            ) && chain_occupied(g, m, d, n - 1),
            ScanEnd::Blocked(n) => n >= i && chain_occupied(g, m, d, n as int),
        },
    decreases rem,
{
    assert(occupied(g, m, d, i - 1) && exact(m, d, i - 1));
    lemma_step(m, d, i - 1);
    let c = offset(m, d, i as int);
    if g.contains_key(c) {
        match g[c].obj {
            None => {},
            Some(o) => {
                assert(occupied(g, m, d, i as int));
                assert(chain_occupied(g, m, d, i as int));
                if rem - o.spec_mass() >= 0 {
                    lemma_push_scan(g, m, d, rem - o.spec_mass(), i + 1);
                }
            },
        }
    }
}

pub proof fn lemma_back_scan(g: Map<Coord, Tile>, m: Coord, d: Coord, b: nat, j: nat)
    requires
        j <= b,
        chain_occupied(g, m, d, b as int),
    ensures
        back_scan(g, m, d, b, j).interaction is Some ==> {
            let r = back_scan(g, m, d, b, j);
            &&& 1 <= r.length <= j
            &&& r.interaction == interaction_at(g, m, d, r.length as int)
            &&& r.success == r.interaction->0.spec_allows_move()
        },
        back_scan(g, m, d, b, j).interaction is None ==> !back_scan(g, m, d, b, j).success
            && back_scan(g, m, d, b, j).length == b,
    decreases j,
{
    if j > 0 {
        lemma_back_scan(g, m, d, b, (j - 1) as nat);
    }
}

/// What the push phase guarantees about the tiles it involves.
pub proof fn lemma_push_plan(g: Map<Coord, Tile>, m: Coord, d: Coord, f: int)
    requires
        is_dir(d),
        keys_in_bounds(g),
        obj_at(g, m) is Some,
    ensures
        ({
            let p = push_plan(g, m, d, f);
            &&& p.length >= 1
            &&& chain_occupied(g, m, d, p.length - 1)
            &&& exact(m, d, p.length as int)
            &&& p.success ==> g.contains_key(offset(m, d, p.length as int))
            &&& p.interaction is Some ==> occupied(g, m, d, p.length as int) && p.interaction
                == interaction_at(g, m, d, p.length as int)
            &&& p.interaction is Some ==> (p.success == p.interaction->0.spec_allows_move())
            &&& p.success && p.interaction is None ==> obj_at(g, offset(m, d, p.length as int))
                is None
            &&& !p.success && p.interaction is Some ==> p.interaction->0 is NonLethalHit
        }),
{
    assert(offset(m, d, 0) == m);
    assert(occupied(g, m, d, 0));
    assert(chain_occupied(g, m, d, 0));
    lemma_push_scan(g, m, d, f, 1);
    match push_scan(g, m, d, f, 1) {
        ScanEnd::Blocked(b) => {
            lemma_back_scan(g, m, d, b, b);
            assert(occupied(g, m, d, b as int));
            let p = back_scan(g, m, d, b, b);
            if p.interaction is Some {
                assert(occupied(g, m, d, p.length as int));
            }
        },
        _ => {},
    }
}

pub proof fn lemma_pull_count(
    g: Map<Coord, Tile>,
    m: Coord,
    d: Coord,
    rem: int,
    k: nat,
    after_rope: bool,
)
    requires
        is_dir(d),
        keys_in_bounds(g),
        exact(m, d, -k),
        in_bounds(offset(m, d, -k)),
    ensures
        forall|j: int|
            -(k + pull_count(g, m, d, rem, k, after_rope)) <= j < -k ==> #[trigger] occupied(
                g,
                m,
                d,
                j,
            ) && exact(m, d, j),
    decreases rem,
{
    lemma_step(m, d, -k);
    assert(-k - 1 == -(k + 1));
    match obj_at(g, offset(m, d, -(k + 1))) {
        Some(o) => if (o is Rope || after_rope) && rem - o.spec_mass() >= 0 {
            let j0 = -(k + 1);
            assert(occupied(g, m, d, j0));
            assert(exact(m, d, j0));
            lemma_pull_count(g, m, d, rem - o.spec_mass(), k + 1, o is Rope);
            let p = pull_count(g, m, d, rem - o.spec_mass(), k + 1, o is Rope);
            assert(pull_count(g, m, d, rem, k, after_rope) == 1 + p);
            assert forall|j: int| -(k + 1 + p) <= j < -k implies #[trigger] occupied(g, m, d, j)
                && exact(m, d, j) by {
                if j < j0 {
                    assert(-((k + 1) as nat + p) <= j < -((k + 1) as nat));
                }
            }
        },
        None => {},
    }
}

/// What the attempt of a move decides before anything changes.
pub struct MoveAttemptConsequences {
    /// Do the objects actually move, or do they fail to move?
    pub success: bool,
    /// Objects that move or fail to move, the pulled ones aside.
    pub non_pulled_length: usize,
    /// Objects that follow the mover by being pulled.
    pub pulled_length: usize,
    /// What the front of the chain does to what stands in front of it.
    pub final_interaction: Option<InteractionConsequences>,
}

impl LogicalWorld {
    /// If `src_obj` were pushed, in vain, into `dst_obj` at `dst_coords`, then what?
    pub fn what_would_happen_if_interact(
        &self,
        src_obj: &Obj,
        dst_obj: &Obj,
        dst_coords: Coord,
    ) -> (r: Option<InteractionConsequences>)
        ensures
            r == interaction(*src_obj, *dst_obj, dst_coords),
    {
        if matches!(dst_obj, Obj::Exit) {
            Some(InteractionConsequences::Exit { at: dst_coords })
        } else if matches!(src_obj, Obj::Pickaxe) && matches!(dst_obj, Obj::Wall) {
            Some(InteractionConsequences::Mine)
        } else if matches!(src_obj, Obj::Key) && matches!(dst_obj, Obj::Door) {
            Some(InteractionConsequences::KeyOpenDoor)
        } else if matches!(src_obj, Obj::Bunny { .. }) && matches!(dst_obj, Obj::Heart) {
            Some(InteractionConsequences::Heal)
        } else if matches!(src_obj, Obj::Bunny { .. }) && matches!(dst_obj, Obj::RedoHeart) {
            Some(InteractionConsequences::GainARedo)
        } else if matches!(dst_obj, Obj::Shroom { .. }) {
            Some(InteractionConsequences::StompShroom)
        } else if let Some(target_hp) = dst_obj.hp() {
            let damages = src_obj.damages();
            if target_hp <= damages {
                // Hit points would drop to zero or less.
                Some(InteractionConsequences::Kill { damages })
            } else {
                Some(InteractionConsequences::NonLethalHit { damages })
            }
        } else {
            None
        }
    }

    /// What would happen if the object at `mover_coords` tried to move along
    /// `direction` with the given force: the push, its front, and the pull.
    pub fn what_would_happen_if_try_to_move(
        &self,
        mover_coords: Coord,
        direction: Coord,
        force: i32,
    ) -> (r: MoveAttemptConsequences)
        requires
            self.wf(),
            is_dir(direction),
            obj_at(self@.grid, mover_coords) is Some,
        ensures
            r.success == push_plan(self@.grid, mover_coords, direction, force as int).success,
            r.non_pulled_length == push_plan(self@.grid, mover_coords, direction, force as int).length,
            r.final_interaction == push_plan(
                self@.grid,
                mover_coords,
                direction,
                force as int,
            ).interaction,
            r.pulled_length == pull_length(self@.grid, mover_coords, direction, force as int),
    {
        let ghost g = self@.grid;
        let ghost m = mover_coords;
        let ghost d = direction;
        assert(offset(m, d, 0) == m);
        assert(occupied(g, m, d, 0));
        assert(chain_occupied(g, m, d, 0));
        assert(keys_in_bounds(g));
        // Push: walk forward until an empty tile, the edge, or exhaustion of the force.
        let mut coords = mover_coords;
        let mut remaining_force: i64 = force as i64;
        let mut length: usize = 0;
        let mut ended_empty = false;
        let mut blocked = false;
        loop
            invariant_except_break
                self.wf(),
                g == self@.grid,
                m == mover_coords,
                d == direction,
                keys_in_bounds(g),
                is_dir(d),
                coords == offset(m, d, length as int),
                chain_occupied(g, m, d, length as int),
                push_scan(g, m, d, force as int, 1) == push_scan(
                    g,
                    m,
                    d,
                    remaining_force as int,
                    (length + 1) as nat,
                ),
                length == 0 ==> remaining_force == force,
                length > 0 ==> remaining_force >= 0,
                !ended_empty,
                !blocked,
                length + remaining_force <= force + 1,
            ensures
                chain_occupied(g, m, d, length - 1),
                exact(m, d, length as int),
                coords == offset(m, d, length as int),
                match push_scan(g, m, d, force as int, 1) {
                    ScanEnd::Empty(n) => ended_empty && !blocked && length == n,
                    ScanEnd::Edge(n) => !ended_empty && !blocked && length == n,
                    ScanEnd::Blocked(n) => blocked && !ended_empty && length == n && chain_occupied(
                        g,
                        m,
                        d,
                        n as int,
                    ),
                },
            decreases remaining_force,
        {
            proof {
                assert(occupied(g, m, d, length as int));
                assert(exact(m, d, length as int));
                lemma_step(m, d, length as int);
            }
            coords = coords.add(direction);
            length = length + 1;
            match self.tile(coords) {
                None => {
                    break;
                },
                Some(tile) => match tile.obj {
                    None => {
                        ended_empty = true;
                        break;
                    },
                    Some(o) => {
                        remaining_force = remaining_force - o.mass() as i64;
                        assert(occupied(g, m, d, length as int));
                        if remaining_force < 0 {
                            blocked = true;
                            break;
                        }
                    },
                },
            }
        }
        let mut success = ended_empty;
        let mut non_pulled_length = length;
        let mut final_interaction: Option<InteractionConsequences> = None;
        if blocked {
            // The force is used up: scan the chain backwards for an interaction.
            let ghost b = length as nat;
            let mut j = length;
            let mut dst_coords = coords;
            loop
                invariant_except_break
                    self.wf(),
                    g == self@.grid,
                    m == mover_coords,
                    d == direction,
                    keys_in_bounds(g),
                    is_dir(d),
                    j <= b,
                    dst_coords == offset(m, d, j as int),
                    chain_occupied(g, m, d, b as int),
                    back_scan(g, m, d, b, b) == back_scan(g, m, d, b, j as nat),
                    non_pulled_length == b,
                    !success,
                    final_interaction is None,
                ensures
                    success == back_scan(g, m, d, b, b).success,
                    non_pulled_length == back_scan(g, m, d, b, b).length,
                    final_interaction == back_scan(g, m, d, b, b).interaction,
                decreases j,
            {
                if j == 0 {
                    break;
                }
                proof {
                    assert(occupied(g, m, d, j as int));
                    assert(exact(m, d, j as int));
                    assert(occupied(g, m, d, j - 1));
                    lemma_step(m, d, j as int);
                }
                let src_coords = dst_coords.sub(direction);
                let src_obj = self.obj_copy(src_coords).unwrap();
                let dst_obj = self.obj_copy(dst_coords).unwrap();
                let found = self.what_would_happen_if_interact(&src_obj, &dst_obj, dst_coords);
                if let Some(ic) = found {
                    success = ic.allows_move();
                    non_pulled_length = j;
                    final_interaction = Some(ic);
                    break;
                }
                j = j - 1;
                dst_coords = src_coords;
            }
        }
        // Pull: ropes behind the mover follow it, with the same force budget.
        let mut coords = mover_coords;
        let mut remaining_force: i64 = force as i64;
        let mut pulled_length: usize = 0;
        let mut can_pull_next = false;
        loop
            invariant_except_break
                self.wf(),
                g == self@.grid,
                m == mover_coords,
                d == direction,
                keys_in_bounds(g),
                is_dir(d),
                coords == offset(m, d, -pulled_length),
                exact(m, d, -pulled_length),
                in_bounds(coords),
                pull_length(g, m, d, force as int) == pulled_length + pull_count(
                    g,
                    m,
                    d,
                    remaining_force as int,
                    pulled_length as nat,
                    can_pull_next,
                ),
                pulled_length == 0 ==> remaining_force == force,
                pulled_length > 0 ==> remaining_force >= 0,
                pulled_length + remaining_force <= force,
            ensures
                pull_length(g, m, d, force as int) == pulled_length,
            decreases remaining_force,
        {
            proof {
                lemma_step(m, d, -pulled_length);
                assert(-pulled_length - 1 == -(pulled_length + 1));
            }
            coords = coords.sub(direction);
            match self.obj_copy(coords) {
                Some(dst_obj) => {
                    if matches!(dst_obj, Obj::Rope) || can_pull_next {
                        can_pull_next = false;
                        remaining_force = remaining_force - dst_obj.mass() as i64;
                        if remaining_force < 0 {
                            break;
                        }
                        pulled_length = pulled_length + 1;
                        if matches!(dst_obj, Obj::Rope) {
                            can_pull_next = true;
                        }
                    } else {
                        break;
                    }
                },
                None => {
                    break;
                },
            }
        }
        MoveAttemptConsequences { success, non_pulled_length, pulled_length, final_interaction }
    }
}

/// What tile `i` of the ray receives when the chain moves one tile forward: the
/// object of tile `i - 1`, and nothing for the mover's own tile.
pub open spec fn carried(g: Map<Coord, Tile>, m: Coord, d: Coord, i: int) -> Option<Obj> {
    if i <= 0 {
        None
    } else {
        obj_at(g, offset(m, d, i - 1))
    }
}

/// The grid once tiles `0 .. n` of the ray have received what they are carried.
pub open spec fn shifted(g: Map<Coord, Tile>, m: Coord, d: Coord, n: nat) -> Map<Coord, Tile>
    decreases n,
{
    if n == 0 {
        g
    } else {
        with_obj(
            shifted(g, m, d, (n - 1) as nat),
            offset(m, d, n - 1),
            carried(g, m, d, n - 1),
        )
    }
}

/// The grid `pushed` once the first `n` objects behind the mover, as they stand
/// in `g`, have each moved one tile along `d`.
pub open spec fn pulled(
    pushed: Map<Coord, Tile>,
    g: Map<Coord, Tile>,
    m: Coord,
    d: Coord,
    n: nat,
) -> Map<Coord, Tile>
    decreases n,
{
    if n == 0 {
        pushed
    } else {
        with_obj(
            with_obj(pulled(pushed, g, m, d, (n - 1) as nat), offset(m, d, -n), None),
            offset(m, d, -(n - 1)),
            obj_at(g, offset(m, d, -n)),
        )
    }
}

/// A bunny back at full health; other objects are unchanged.
pub open spec fn healed(o: Obj) -> Obj {
    match o {
        Obj::Bunny { max_hp, .. } => Obj::Bunny { hp: max_hp, max_hp },
        _ => o,
    }
}

/// The grid after a successful push, the effect on the front tile included.
pub open spec fn pushed_grid(g: Map<Coord, Tile>, m: Coord, d: Coord, p: PushPlan) -> Map<
    Coord,
    Tile,
> {
    let front = offset(m, d, p.length as int);
    match p.interaction {
        Some(InteractionConsequences::Exit { .. }) => shifted(g, m, d, p.length),
        Some(InteractionConsequences::KeyOpenDoor) => with_obj(
            shifted(g, m, d, p.length),
            front,
            None,
        ),
        Some(InteractionConsequences::Heal) => with_obj(
            shifted(g, m, d, p.length),
            front,
            Some(healed(obj_at(g, offset(m, d, p.length - 1))->0)),
        ),
        _ => shifted(g, m, d, p.length + 1),
    }
}

/// The grid after a failed push: only a non-lethal hit leaves a mark.
pub open spec fn failed_grid(g: Map<Coord, Tile>, m: Coord, d: Coord, p: PushPlan) -> Map<
    Coord,
    Tile,
> {
    let front = offset(m, d, p.length as int);
    match p.interaction {
        Some(InteractionConsequences::NonLethalHit { damages }) => with_obj(
            g,
            front,
            Some(obj_at(g, front)->0.damaged(damages)),
        ),
        _ => g,
    }
}

/// Is there a shroom next to `c`?
pub open spec fn shroom_adjacent(g: Map<Coord, Tile>, c: Coord) -> bool {
    exists|i: int| 0 <= i < 4 && obj_at(g, #[trigger] spec_add(c, dirs()[i])) matches Some(
        Obj::Shroom { .. },
    )
}

/// A shroomer that left its tile empty leaves a shroom there, unless one was
/// already next to it.
pub open spec fn with_shroom_spawn(g: Map<Coord, Tile>, m: Coord, after: Map<Coord, Tile>) -> Map<
    Coord,
    Tile,
> {
    if obj_at(g, m) matches Some(Obj::Shroomer { .. }) && obj_at(after, m) is None
        && !shroom_adjacent(g, m) {
        with_obj(after, m, Some(Obj::Shroom { move_token: false }))
    } else {
        after
    }
}

/// One more redo, kept within `0 ..= max`.
pub open spec fn gained_redo(redo_count: i32, max: i32) -> i32 {
    if redo_count + 1 > max {
        max
    } else if redo_count + 1 < 0 {
        0
    } else {
        (redo_count + 1) as i32
    }
}

pub open spec fn moves_along(m: Coord, d: Coord, n: nat) -> Seq<LogicalEvent> {
    Seq::new(n, |i: int| LogicalEvent::Move { from: offset(m, d, i), to: offset(m, d, i + 1) })
}

pub open spec fn fails_along(m: Coord, d: Coord, n: nat) -> Seq<LogicalEvent> {
    Seq::new(n, |i: int| LogicalEvent::FailToMove { from: offset(m, d, i), to: offset(m, d, i + 1) })
}

pub open spec fn pull_moves(m: Coord, d: Coord, n: nat) -> Seq<LogicalEvent> {
    Seq::new(n, |k: int| LogicalEvent::Move { from: offset(m, d, -(k + 1)), to: offset(m, d, -k) })
}

/// The event of the interaction at the front of the chain, if any.
pub open spec fn front_events(g: Map<Coord, Tile>, m: Coord, d: Coord, p: PushPlan) -> Seq<
    LogicalEvent,
> {
    let front = offset(m, d, p.length as int);
    let back = offset(m, d, p.length - 1);
    let target = obj_at(g, front)->0;
    let last = obj_at(g, back)->0;
    match p.interaction {
        None => Seq::empty(),
        Some(InteractionConsequences::Kill { damages }) => seq![
            LogicalEvent::Killed { obj: target, at: front, damages },
        ],
        Some(InteractionConsequences::StompShroom) => seq![
            LogicalEvent::Stomped { obj: target, at: front },
        ],
        Some(InteractionConsequences::Mine) => seq![LogicalEvent::Mined { obj: target, at: front }],
        Some(InteractionConsequences::KeyOpenDoor) => seq![
            LogicalEvent::DoorOpenedWithKey { key_obj: last, door_obj: target, from: back, to: front },
        ],
        Some(InteractionConsequences::Exit { .. }) => seq![
            LogicalEvent::Exit { obj: last, from: back, to: front },
        ],
        Some(InteractionConsequences::Heal) => seq![
            LogicalEvent::Healed { obj: healed(last), at: front },
        ],
        Some(InteractionConsequences::GainARedo) => seq![
            LogicalEvent::RedoGained { obj: target, at: front },
        ],
        Some(InteractionConsequences::NonLethalHit { damages }) => seq![
            LogicalEvent::Hit { at: front, damages },
        ],
    }
}

/// How many objects of the chain are shown moving: the one that leaves through
/// the exit is shown by the exit event instead.
pub open spec fn shown_moves(p: PushPlan) -> nat {
    if p.interaction matches Some(InteractionConsequences::Exit { .. }) {
        (p.length - 1) as nat
    } else {
        p.length
    }
}

/// The transition of the object at `m` trying to move along `d` with force `f`.
pub open spec fn move_outcome(w: WorldView, m: Coord, d: Coord, f: int) -> TransitionView {
    let g = w.grid;
    let p = push_plan(g, m, d, f);
    let n = pull_length(g, m, d, f);
    let after = if p.success {
        pulled(pushed_grid(g, m, d, p), g, m, d, n)
    } else {
        failed_grid(g, m, d, p)
    };
    TransitionView {
        world: WorldView {
            grid: with_shroom_spawn(g, m, after),
            redo_count: if p.success && p.interaction == Some(InteractionConsequences::GainARedo) {
                gained_redo(w.redo_count, w.max_redo_count)
            } else {
                w.redo_count
            },
            max_redo_count: w.max_redo_count,
        },
        events: if p.success {
            moves_along(m, d, shown_moves(p)) + front_events(g, m, d, p) + pull_moves(m, d, n)
        } else {
            fails_along(m, d, p.length) + front_events(g, m, d, p)
        },
    }
}

pub proof fn lemma_shifted_dom(g: Map<Coord, Tile>, m: Coord, d: Coord, n: nat)
    requires
        forall|k: int| 0 <= k < n ==> #[trigger] g.contains_key(offset(m, d, k)),
    ensures
        shifted(g, m, d, n).dom() == g.dom(),
    decreases n,
{
    if n > 0 {
        lemma_shifted_dom(g, m, d, (n - 1) as nat);
        assert(g.contains_key(offset(m, d, n - 1)));
        assert(shifted(g, m, d, n).dom() =~= g.dom());
    }
}

pub proof fn lemma_pulled_dom(
    pushed: Map<Coord, Tile>,
    g: Map<Coord, Tile>,
    m: Coord,
    d: Coord,
    n: nat,
)
    requires
        pushed.dom() == g.dom(),
        g.contains_key(m),
        forall|k: int| -n <= k < 0 ==> #[trigger] g.contains_key(offset(m, d, k)),
    ensures
        pulled(pushed, g, m, d, n).dom() == g.dom(),
    decreases n,
{
    assert(offset(m, d, 0) == m);
    if n > 0 {
        lemma_pulled_dom(pushed, g, m, d, (n - 1) as nat);
        assert(g.contains_key(offset(m, d, -n)));
        if n > 1 {
            assert(g.contains_key(offset(m, d, -(n - 1))));
        }
        assert(pulled(pushed, g, m, d, n).dom() =~= g.dom());
    }
}

impl LogicalWorld {
    /// The transition of the object at `mover_coords` trying to move along
    /// `direction` with the given force.
    pub fn try_to_move(&self, mover_coords: Coord, direction: Coord, force: i32) -> (r:
        LogicalTransition)
        requires
            self.wf(),
            is_dir(direction),
            obj_at(self@.grid, mover_coords) is Some,
        ensures
            r.resulting_lw.wf(),
            r.view_of() == move_outcome(self@, mover_coords, direction, force as int),
    {
        let ghost g = self@.grid;
        let ghost m = mover_coords;
        let ghost d = direction;
        let MoveAttemptConsequences { success, non_pulled_length, pulled_length, final_interaction } =
            self.what_would_happen_if_try_to_move(mover_coords, direction, force);
        let ghost p = push_plan(g, m, d, force as int);
        proof {
            assert(keys_in_bounds(g));
            assert(offset(m, d, 0) == m);
            lemma_push_plan(g, m, d, force as int);
            lemma_pull_count(g, m, d, force as int, 0, false);
        }
        let is_exit = matches!(final_interaction, Some(InteractionConsequences::Exit { .. }));
        let mut res_lw = self.copy();
        let mut logical_events: Vec<LogicalEvent> = Vec::new();
        let mut coords = mover_coords;
        let mut previous_obj: Option<Obj> = None;
        let mut i: usize = 0;
        while i < non_pulled_length
            invariant
                self.wf(),
                g == self@.grid,
                m == mover_coords,
                d == direction,
                is_dir(d),
                keys_in_bounds(g),
                p == push_plan(g, m, d, force as int),
                non_pulled_length == p.length,
                success == p.success,
                is_exit == (p.interaction matches Some(InteractionConsequences::Exit { .. })),
                chain_occupied(g, m, d, p.length - 1),
                exact(m, d, p.length as int),
                i <= non_pulled_length,
                coords == offset(m, d, i as int),
                previous_obj == carried(g, m, d, i as int),
                res_lw.wf(),
                res_lw@ == (WorldView {
                    grid: if success {
                        shifted(g, m, d, i as nat)
                    } else {
                        g
                    },
                    ..self@
                }),
                success ==> logical_events@ == moves_along(
                    m,
                    d,
                    if is_exit && i == p.length {
                        (i - 1) as nat
                    } else {
                        i as nat
                    },
                ),
                !success ==> logical_events@ == fails_along(m, d, i as nat),
            decreases non_pulled_length - i,
        {
            proof {
                assert(occupied(g, m, d, i as int));
                assert(exact(m, d, i as int));
                lemma_step(m, d, i as int);
                assert forall|k: int| 0 <= k < i implies #[trigger] g.contains_key(offset(m, d, k)) by {
                    assert(occupied(g, m, d, k));
                }
                lemma_shifted_dom(g, m, d, i as nat);
            }
            let here = self.obj_copy(coords);
            let next = coords.add(direction);
            if success {
                res_lw.set_obj(coords, previous_obj);
                if !(is_exit && i + 1 == non_pulled_length) {
                    logical_events.push(LogicalEvent::Move { from: coords, to: next });
                }
            } else {
                // The objects that fail to move are shown failing to move.
                logical_events.push(LogicalEvent::FailToMove { from: coords, to: next });
            }
            proof {
                if success {
                    if is_exit && i + 1 == p.length {
                        assert(logical_events@ =~= moves_along(m, d, i as nat));
                    } else {
                        assert(logical_events@ =~= moves_along(m, d, (i + 1) as nat));
                    }
                } else {
                    assert(logical_events@ =~= fails_along(m, d, (i + 1) as nat));
                }
            }
            previous_obj = here;
            coords = next;
            i = i + 1;
        }
        // The front of the chain: there may be an interaction with what stands there.
        let ghost front = offset(m, d, p.length as int);
        let ghost shown = logical_events@;
        proof {
            assert(occupied(g, m, d, p.length - 1));
            lemma_step(m, d, p.length - 1);
            assert forall|k: int| 0 <= k < p.length implies #[trigger] g.contains_key(offset(m, d, k)) by {
                assert(occupied(g, m, d, k));
            }
            lemma_shifted_dom(g, m, d, p.length);
        }
        if success {
            proof {
                lemma_shifted_dom(g, m, d, p.length + 1);
            }
            match final_interaction {
                None => {
                    res_lw.set_obj(coords, previous_obj);
                },
                Some(InteractionConsequences::Kill { damages }) => {
                    // The hit kills the target: the front of the chain takes its place.
                    let target_obj = self.obj_copy(coords).unwrap();
                    res_lw.set_obj(coords, previous_obj);
                    logical_events.push(
                        LogicalEvent::Killed { obj: target_obj, at: coords, damages },
                    );
                },
                Some(InteractionConsequences::StompShroom) => {
                    let target_obj = self.obj_copy(coords).unwrap();
                    res_lw.set_obj(coords, previous_obj);
                    logical_events.push(LogicalEvent::Stomped { obj: target_obj, at: coords });
                },
                Some(InteractionConsequences::Mine) => {
                    let target_obj = self.obj_copy(coords).unwrap();
                    res_lw.set_obj(coords, previous_obj);
                    logical_events.push(LogicalEvent::Mined { obj: target_obj, at: coords });
                },
                Some(InteractionConsequences::KeyOpenDoor) => {
                    let door_obj = self.obj_copy(coords).unwrap();
                    let key_obj = previous_obj.unwrap();
                    res_lw.set_obj(coords, None);
                    logical_events.push(
                        LogicalEvent::DoorOpenedWithKey {
                            key_obj,
                            door_obj,
                            from: coords.sub(direction),
                            to: coords,
                        },
                    );
                },
                Some(InteractionConsequences::Exit { .. }) => {
                    // The exit stays; the object that went through it is gone.
                    let exiting_obj = previous_obj.unwrap();
                    logical_events.push(
                        LogicalEvent::Exit { obj: exiting_obj, from: coords.sub(direction), to: coords },
                    );
                },
                Some(InteractionConsequences::Heal) => {
                    let healed_obj = match previous_obj.unwrap() {
                        Obj::Bunny { max_hp, .. } => Obj::Bunny { hp: max_hp, max_hp },
                        other => other,
                    };
                    res_lw.set_obj(coords, Some(healed_obj));
                    logical_events.push(LogicalEvent::Healed { obj: healed_obj, at: coords });
                },
                Some(InteractionConsequences::GainARedo) => {
                    let redo_heart_obj = self.obj_copy(coords).unwrap();
                    res_lw.set_obj(coords, previous_obj);
                    let redo_count = self.redo_count();
                    let max_redo_count = self.max_redo_count();
                    let gained = if redo_count >= max_redo_count {
                        max_redo_count
                    } else if redo_count < -1 {
                        0
                    } else {
                        redo_count + 1
                    };
                    res_lw.set_redo_count(gained);
                    logical_events.push(
                        LogicalEvent::RedoGained { obj: redo_heart_obj, at: coords },
                    );
                },
                Some(InteractionConsequences::NonLethalHit { .. }) => {
                    // A target that survives blocks the push, which is then no success.
                },
            }
        } else if let Some(InteractionConsequences::NonLethalHit { damages }) = final_interaction {
            let mut target_obj = self.obj_copy(coords).unwrap();
            target_obj.take_damage(damages);
            res_lw.set_obj(coords, Some(target_obj));
            logical_events.push(LogicalEvent::Hit { at: coords, damages });
        }
        proof {
            assert(logical_events@ =~= shown + front_events(g, m, d, p));
            assert(res_lw@.grid == if success {
                pushed_grid(g, m, d, p)
            } else {
                failed_grid(g, m, d, p)
            });
        }
        // The pulling: ropes behind the mover follow it.
        let ghost before_pull = logical_events@;
        let ghost pushed = res_lw@.grid;
        let ghost redo_after = res_lw@.redo_count;
        proof {
            assert(redo_after == if p.success && p.interaction == Some(
                InteractionConsequences::GainARedo,
            ) {
                gained_redo(self@.redo_count, self@.max_redo_count)
            } else {
                self@.redo_count
            });
        }
        if success {
            proof {
                assert(pushed.dom() == g.dom()) by {
                    assert(g.contains_key(front));
                    if p.interaction matches Some(InteractionConsequences::Exit { .. }) {
                    } else {
                        assert(pushed.dom() =~= g.dom());
                    }
                }
            }
            let mut coords = mover_coords;
            let mut k: usize = 0;
            while k < pulled_length
                invariant
                    self.wf(),
                    g == self@.grid,
                    m == mover_coords,
                    d == direction,
                    is_dir(d),
                    keys_in_bounds(g),
                    g.contains_key(m),
                    pushed.dom() == g.dom(),
                    pulled_length == pull_length(g, m, d, force as int),
                    forall|j: int| -pulled_length <= j < 0 ==> #[trigger] occupied(g, m, d, j)
                        && exact(m, d, j),
                    k <= pulled_length,
                    coords == offset(m, d, -k),
                    exact(m, d, -k),
                    in_bounds(coords),
                    res_lw.wf(),
                    res_lw@ == (WorldView {
                        grid: pulled(pushed, g, m, d, k as nat),
                        ..res_lw@
                    }),
                    res_lw@.max_redo_count == self@.max_redo_count,
                    res_lw@.redo_count == redo_after,
                    logical_events@ == before_pull + pull_moves(m, d, k as nat),
                decreases pulled_length - k,
            {
                proof {
                    lemma_step(m, d, -k);
                    assert(-k - 1 == -(k + 1));
                    assert(occupied(g, m, d, -(k + 1)));
                    assert forall|j: int| -k <= j < 0 implies #[trigger] g.contains_key(offset(m, d, j)) by {
                        assert(occupied(g, m, d, j));
                    }
                    lemma_pulled_dom(pushed, g, m, d, k as nat);
                }
                let from = coords.sub(direction);
                let obj = self.obj_copy(from);
                res_lw.set_obj(from, None);
                res_lw.set_obj(coords, obj);
                logical_events.push(LogicalEvent::Move { from, to: coords });
                proof {
                    assert(logical_events@ =~= before_pull + pull_moves(m, d, (k + 1) as nat));
                }
                coords = from;
                k = k + 1;
            }
        }
        proof {
            if !success {
                assert(logical_events@ =~= before_pull);
            } else {
                assert forall|j: int| -pulled_length <= j < 0 implies #[trigger] g.contains_key(
                    offset(m, d, j),
                ) by {
                    assert(occupied(g, m, d, j));
                }
                lemma_pulled_dom(pushed, g, m, d, pulled_length as nat);
            }
        }
        // A shroomer that left its tile leaves a shroom behind.
        let ghost after = res_lw@.grid;
        let mover_was_shroomer = matches!(self.obj_copy(mover_coords), Some(Obj::Shroomer { .. }));
        if mover_was_shroomer && res_lw.obj_copy(mover_coords).is_none() {
            let dirs4 = four_directions();
            let mut adjacent_to_shroom = false;
            let mut idx: usize = 0;
            while idx < 4
                invariant
                    self.wf(),
                    g == self@.grid,
                    m == mover_coords,
                    in_bounds(m),
                    dirs4@ == dirs(),
                    idx <= 4,
                    adjacent_to_shroom == exists|j: int| 0 <= j < idx && obj_at(
                        g,
                        #[trigger] spec_add(m, dirs()[j]),
                    ) matches Some(Obj::Shroom { .. }),
                decreases 4 - idx,
            {
                let adjacent_coords = mover_coords.add(dirs4[idx]);
                if matches!(self.obj_copy(adjacent_coords), Some(Obj::Shroom { .. })) {
                    adjacent_to_shroom = true;
                }
                idx = idx + 1;
            }
            if !adjacent_to_shroom {
                res_lw.set_obj(mover_coords, Some(Obj::Shroom { move_token: false }));
            }
        }
        let r = LogicalTransition { resulting_lw: res_lw, logical_events };
        proof {
            let o = move_outcome(self@, mover_coords, direction, force as int);
            assert(p.success ==> shown == moves_along(m, d, shown_moves(p)));
            assert(r.view_of().events == o.events);
            assert(after == if p.success {
                pulled(pushed_grid(g, m, d, p), g, m, d, pull_length(g, m, d, force as int))
            } else {
                failed_grid(g, m, d, p)
            });
            assert(r.view_of().world.grid == o.world.grid);
            assert(r.view_of().world.redo_count == o.world.redo_count);
            assert(r.view_of().world.max_redo_count == o.world.max_redo_count);
        }
        r
    }
}

/// The transition of the object at `h` sacrificing itself to hit what stands
/// next to it along `d`.
pub open spec fn sacrifice_outcome(w: WorldView, h: Coord, d: Coord) -> TransitionView {
    let g = w.grid;
    let t = spec_add(h, d);
    let hitter = obj_at(g, h)->0;
    let damages = hitter.spec_damages();
    let target = obj_at(g, t)->0.damaged(damages);
    let killed = target.spec_hp()->0 <= 0;
    TransitionView {
        world: WorldView {
            grid: with_obj(with_obj(g, h, None), t, if killed {
                None
            } else {
                Some(target)
            }),
            ..w
        },
        events: seq![
            LogicalEvent::MoveInto { obj: hitter, from: h, to: t },
            if killed {
                LogicalEvent::Killed { obj: target, at: t, damages }
            } else {
                LogicalEvent::Hit { at: t, damages }
            },
        ],
    }
}

impl LogicalWorld {
    /// The object at `hitter_coords` sacrifices itself to hit its neighbour along
    /// `direction`; the hitter is gone whether or not the hit kills.
    pub fn sacrifice_hit(&self, hitter_coords: Coord, direction: Coord) -> (r: LogicalTransition)
        requires
            self.wf(),
            is_dir(direction),
            obj_at(self@.grid, hitter_coords) is Some,
            obj_at(self@.grid, spec_add(hitter_coords, direction)) matches Some(o)
                && o.spec_hp() is Some,
        ensures
            r.resulting_lw.wf(),
            r.view_of() == sacrifice_outcome(self@, hitter_coords, direction),
    {
        let ghost g = self@.grid;
        assert(keys_in_bounds(g));
        let mut res_lw = self.copy();
        let hitter_obj = self.obj_copy(hitter_coords).unwrap();
        res_lw.set_obj(hitter_coords, None);
        let target_coords = hitter_coords.add(direction);
        let damages = hitter_obj.damages();
        let mut logical_events: Vec<LogicalEvent> = Vec::new();
        logical_events.push(
            LogicalEvent::MoveInto { obj: hitter_obj, from: hitter_coords, to: target_coords },
        );
        let mut target_obj = self.obj_copy(target_coords).unwrap();
        target_obj.take_damage(damages);
        if target_obj.hp().unwrap() <= 0 {
            logical_events.push(LogicalEvent::Killed { obj: target_obj, at: target_coords, damages });
            res_lw.set_obj(target_coords, None);
        } else {
            logical_events.push(LogicalEvent::Hit { at: target_coords, damages });
            res_lw.set_obj(target_coords, Some(target_obj));
        }
        let r = LogicalTransition { resulting_lw: res_lw, logical_events };
        assert(r.view_of().events =~= sacrifice_outcome(self@, hitter_coords, direction).events);
        r
    }
}

} // verus!
