//! Turns: the player's move, then each agent's move in random order, every
//! transition followed by wall generation or visibility as the game needs.

use vstd::prelude::*;
use rand::seq::SliceRandom;
use crate::agents::{chase_decision, fish_decision, shroom_decision};
use crate::coords::{Coord, is_dir, spec_add};
use crate::events::{LogicalTransition, TransitionView};
use crate::obj::Obj;
use crate::resolver::{move_outcome, sacrifice_outcome};
use crate::topology::walled;
use crate::visibility::with_visibility;
use crate::world::{LogicalWorld, WorldView, is_bunny, obj_at, with_obj};

verus! {

/// The force with which the player pushes.
pub const PLAYER_FORCE: i32 = 2;

/// The force with which an agent pushes.
pub const AGENT_FORCE: i32 = 2;

/// `v` is the world `w` with its visibility recomputed for its player.
pub open spec fn seen_by_player(w: WorldView, v: WorldView) -> bool {
    exists|pre: LogicalWorld|
        pre.entries_ok() && #[trigger] pre@ == w && v == (WorldView {
            grid: with_visibility(w.grid, pre.player()),
            ..w
        })
}

/// Where the agent at `c` decides to go, by its kind.
pub open spec fn decided(g: Map<Coord, crate::obj::Tile>, c: Coord, player: Option<Coord>) -> Option<Coord> {
    let o = obj_at(g, c)->0;
    if o is Shroom {
        shroom_decision(c, player)
    } else if o is Fish {
        fish_decision(g, c, player)
    } else {
        chase_decision(g, c, player)
    }
}

/// The agent once it acts: its token used, and, for a fish, facing its move.
pub open spec fn acting(o: Obj, dir: Option<Coord>) -> Obj {
    match (o, dir) {
        (Obj::Fish { .. }, Some(d)) => Obj::Fish { direction: d, move_token: false },
        _ => o.with_token(false),
    }
}

/// `r` is the transition of the turn of the agent at `c`, with the player at
/// `player`: shrooms, and shroomers facing the player, attack by sacrifice;
/// other moves are pushes; an agent that does not move only uses its token.
pub open spec fn agent_turn(w: WorldView, c: Coord, player: Option<Coord>, r: TransitionView) -> bool {
    let o = obj_at(w.grid, c)->0;
    let dir = decided(w.grid, c, player);
    let taken = WorldView { grid: with_obj(w.grid, c, Some(acting(o, dir))), ..w };
    match dir {
        None => r == (TransitionView { world: taken, events: Seq::empty() }),
        Some(d) => {
            let t = if o is Shroom || (o is Shroomer && is_bunny(obj_at(taken.grid, spec_add(c, d)))) {
                sacrifice_outcome(taken, c, d)
            } else {
                move_outcome(taken, c, d, AGENT_FORCE as int)
            };
            r.events == t.events && seen_by_player(t.world, r.world)
        },
    }
}

/// An agent holding its move token stands at `c`.
pub open spec fn tokened_agent(g: Map<Coord, crate::obj::Tile>, c: Coord) -> bool {
    obj_at(g, c) matches Some(o) && o.is_agent() && o.spec_has_move_token()
}

/// Relies on rand's `SliceRandom::shuffle` (Fisher-Yates with the thread-local
/// generator): it only swaps elements, so the result is a permutation.
#[verifier::external_body]
fn shuffled(coords: Vec<Coord>) -> (r: Vec<Coord>)
    ensures
        r@.to_multiset() == coords@.to_multiset(),
{
    let mut coords = coords;
    coords.shuffle(&mut rand::thread_rng());
    coords
}

impl LogicalTransition {
    /// The same transition, with the visibility of its world recomputed.
    pub fn updated_visibility(self) -> (r: LogicalTransition)
        requires
            self.resulting_lw.wf(),
        ensures
            r.resulting_lw.wf(),
            r.logical_events@ == self.logical_events@,
            r.resulting_lw@ == (WorldView {
                grid: with_visibility(self.resulting_lw@.grid, self.resulting_lw.player()),
                ..self.resulting_lw@
            }),
    {
        LogicalTransition {
            resulting_lw: self.resulting_lw.updated_visibility(),
            logical_events: self.logical_events,
        }
    }

    /// The same transition, with the walls around its world generated.
    pub fn generated_walls_outside(self) -> (r: LogicalTransition)
        requires
            self.resulting_lw.wf(),
        ensures
            r.resulting_lw.wf(),
            r.logical_events@ == self.logical_events@,
            r.resulting_lw@ == (WorldView { grid: walled(self.resulting_lw@.grid), ..self.resulting_lw@ }),
    {
        LogicalTransition {
            resulting_lw: self.resulting_lw.generated_walls_outside(),
            logical_events: self.logical_events,
        }
    }
}

impl LogicalWorld {
    /// The transition of the player trying to move along `direction`; nothing
    /// happens without a player.
    pub fn player_move(&self, direction: Coord) -> (r: LogicalTransition)
        requires
            self.wf(),
            is_dir(direction),
        ensures
            r.resulting_lw.wf(),
            match self.player() {
                None => r.view_of() == (TransitionView { world: self@, events: Seq::empty() }),
                Some(p) => {
                    let t = move_outcome(self@, p, direction, PLAYER_FORCE as int);
                    &&& r.logical_events@ == t.events
                    &&& seen_by_player(WorldView { grid: walled(t.world.grid), ..t.world }, r.resulting_lw@)
                },
            },
    {
        proof {
            self.lemma_player();
        }
        match self.player_coords() {
            Some(coords) => {
                let walled_t = self.try_to_move(coords, direction, PLAYER_FORCE).generated_walls_outside();
                let ghost pre = walled_t.resulting_lw;
                let r = walled_t.updated_visibility();
                assert(pre.entries_ok() && pre@ == pre@);
                r
            },
            None => LogicalTransition::from(self.copy()),
        }
    }

    /// The turn of the agent at `coords`.
    pub fn handle_move_for_agent_at(&self, coords: Coord) -> (r: LogicalTransition)
        requires
            self.wf(),
            obj_at(self@.grid, coords) matches Some(o) && o.is_agent(),
        ensures
            r.resulting_lw.wf(),
            agent_turn(self@, coords, self.player(), r.view_of()),
    {
        proof {
            self.lemma_player();
            assert(crate::resolver::keys_in_bounds(self@.grid));
        }
        let o = self.obj_copy(coords).unwrap();
        let is_shroom = matches!(o, Obj::Shroom { .. });
        let is_shroomer = matches!(o, Obj::Shroomer { .. });
        let direction = if is_shroom {
            self.shroom_ai_decision(coords)
        } else if matches!(o, Obj::Fish { .. }) {
            self.fish_ai_decision(coords)
        } else {
            self.ai_decision(coords)
        };
        let mut res_lw = self.copy();
        let mut acting_obj = o;
        acting_obj.take_move_token();
        if let Obj::Fish { move_token, .. } = acting_obj {
            if let Some(d) = direction {
                // A fish faces the way it goes.
                acting_obj = Obj::Fish { direction: d, move_token };
            }
        }
        assert(acting_obj == acting(o, direction));
        assert(self@.grid[coords].is_valid());
        res_lw.set_obj(coords, Some(acting_obj));
        match direction {
            None => {
                let r = LogicalTransition::from(res_lw);
                assert(r.view_of().events =~= Seq::empty());
                r
            },
            Some(d) => {
                let target_coords = coords.add(d);
                let target_is_bunny = matches!(res_lw.obj_copy(target_coords), Some(Obj::Bunny { .. }));
                let t = if is_shroom || (is_shroomer && target_is_bunny) {
                    res_lw.sacrifice_hit(coords, d)
                } else {
                    res_lw.try_to_move(coords, d, AGENT_FORCE)
                };
                let ghost pre = t.resulting_lw;
                let r = t.updated_visibility();
                assert(pre.entries_ok() && pre@ == pre@);
                r
            },
        }
    }

    /// The turn of the first agent in `order` that still holds its move token,
    /// if there is one.
    pub fn handle_move_for_first_agent_in(&self, order: &Vec<Coord>) -> (r: Option<LogicalTransition>)
        requires
            self.wf(),
        ensures
            r is None <==> forall|i: int| 0 <= i < order@.len() ==> !tokened_agent(self@.grid, #[trigger] order@[i]),
            r matches Some(t) ==> exists|i: int|
                0 <= i < order@.len() && tokened_agent(self@.grid, #[trigger] order@[i]) && (forall|j: int|
                    0 <= j < i ==> !tokened_agent(self@.grid, #[trigger] order@[j])) && t.resulting_lw.wf()
                    && agent_turn(self@, order@[i], self.player(), t.view_of()),
    {
        let mut i: usize = 0;
        while i < order.len()
            invariant
                self.wf(),
                i <= order@.len(),
                forall|j: int| 0 <= j < i ==> !tokened_agent(self@.grid, #[trigger] order@[j]),
            decreases order@.len() - i,
        {
            let coords = order[i];
            if let Some(o) = self.obj_copy(coords) {
                if o.has_move_token() {
                    assert(tokened_agent(self@.grid, order@[i as int]));
                    let t = self.handle_move_for_agent_at(coords);
                    return Some(t);
                }
            }
            i = i + 1;
        }
        None
    }

    /// If agents can still move, the transition of one of them, chosen at
    /// random among those holding a move token. The world itself is unchanged.
    pub fn handle_move_for_one_agent(&mut self) -> (r: Option<LogicalTransition>)
        requires
            old(self).wf(),
        ensures
            final(self)@ == old(self)@,
            final(self).wf(),
            r is None <==> forall|c: Coord| !tokened_agent(old(self)@.grid, c),
            r matches Some(t) ==> exists|c: Coord|
                tokened_agent(old(self)@.grid, c) && t.resulting_lw.wf() && agent_turn(
                    old(self)@,
                    c,
                    old(self).player(),
                    t.view_of(),
                ),
    {
        let tiles = self.tiles();
        let mut keys: Vec<Coord> = Vec::new();
        let mut i: usize = 0;
        while i < tiles.len()
            invariant
                i <= tiles@.len(),
                keys@ == tiles@.subrange(0, i as int).map_values(|e: (Coord, crate::obj::Tile)| e.0),
            decreases tiles@.len() - i,
        {
            keys.push(tiles[i].0);
            i = i + 1;
            assert(keys@ =~= tiles@.subrange(0, i as int).map_values(|e: (Coord, crate::obj::Tile)| e.0));
        }
        let ghost all = keys@;
        let order = shuffled(keys);
        proof {
            assert(tiles@.subrange(0, tiles@.len() as int) =~= tiles@);
            all.to_multiset_ensures();
            order@.to_multiset_ensures();
            // Every tile is in the order, and only tiles are.
            assert forall|c: Coord| tokened_agent(self@.grid, c) implies order@.contains(c) by {
                let j = choose|j: int| 0 <= j < tiles@.len() && tiles@[j].0 == c;
                assert(all[j] == c);
                assert(all.contains(c));
                assert(all.to_multiset().count(c) > 0);
                assert(order@.to_multiset().count(c) > 0);
            }
        }
        let r = self.handle_move_for_first_agent_in(&order);
        proof {
            if r is None {
                assert forall|c: Coord| !tokened_agent(self@.grid, c) by {
                    if tokened_agent(self@.grid, c) {
                        assert(order@.contains(c));
                        let j = choose|j: int| 0 <= j < order@.len() && order@[j] == c;
                        assert(!tokened_agent(self@.grid, order@[j]));
                    }
                }
            }
        }
        r
    }
}

/// Undoes the last move at the cost of one redo: the world before it comes back,
/// with the redo count of `current` less one. Without a redo left, or without an
/// earlier world, nothing is undone and the earlier worlds are kept.
pub fn redo(current: &LogicalWorld, previous: &mut Vec<LogicalWorld>) -> (r: Option<LogicalWorld>)
    requires
        current.wf(),
        forall|i: int| 0 <= i < old(previous)@.len() ==> (#[trigger] old(previous)@[i]).wf(),
    ensures
        match r {
            None => {
                &&& (current@.redo_count < 1 || old(previous)@.len() == 0)
                &&& final(previous)@ == old(previous)@
            },
            Some(w) => {
                &&& current@.redo_count >= 1
                &&& old(previous)@.len() > 0
                &&& final(previous)@ == old(previous)@.drop_last()
                &&& w.wf()
                &&& w@ == (WorldView { redo_count: (current@.redo_count - 1) as i32, ..old(previous)@.last()@ })
            },
        },
{
    let redo_count = current.redo_count();
    if redo_count < 1 {
        return None;
    }
    match previous.pop() {
        Some(previous_lw) => {
            let mut lw = previous_lw;
            lw.set_redo_count(redo_count - 1);
            Some(lw)
        },
        None => None,
    }
}

} // verus!
