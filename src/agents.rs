//! The agents' turn: move tokens, the decision of each kind of agent, and the
//! resolution of one agent's move.

use vstd::prelude::*;
use crate::coords::{Coord, in_bounds, is_dir, offset, spec_add};
use crate::obj::{Obj, Tile};
use crate::resolver::{exact, keys_in_bounds, lemma_step};
use crate::world::{LogicalWorld, WorldView, blocks_sight, obj_at};

verus! {

/// The unit step from `a` toward `t` when they share a row or a column.
pub open spec fn toward(a: Coord, t: Coord) -> Option<Coord> {
    if a.x == t.x {
        if t.y < a.y {
            Some(Coord { x: 0i32, y: -1i32 })
        } else {
            Some(Coord { x: 0i32, y: 1i32 })
        }
    } else if a.y == t.y {
        if t.x < a.x {
            Some(Coord { x: -1i32, y: 0i32 })
        } else {
            Some(Coord { x: 1i32, y: 0i32 })
        }
    } else {
        None
    }
}

pub open spec fn abs(v: int) -> int {
    if v < 0 {
        -v
    } else {
        v
    }
}

/// Manhattan distance.
pub open spec fn manhattan(a: Coord, t: Coord) -> int {
    abs(t.x - a.x) + abs(t.y - a.y)
}

/// Does a vision-blocking object stand strictly between tile 0 and tile `n` of
/// the ray from `a` along `d`?
pub open spec fn sight_blocked(g: Map<Coord, Tile>, a: Coord, d: Coord, n: int) -> bool {
    exists|k: int| 1 <= k < n && blocks_sight(#[trigger] obj_at(g, offset(a, d, k)))
}

/// Generic chase: one step toward a player in the same row or column, unless an
/// enemy stands in the way or the line of sight is blocked.
pub open spec fn chase_decision(g: Map<Coord, Tile>, a: Coord, player: Option<Coord>) -> Option<
    Coord,
> {
    match player {
        None => None,
        Some(t) => match toward(a, t) {
            None => None,
            Some(d) => if obj_at(g, spec_add(a, d)) matches Some(o) && o.spec_is_enemy() {
                None
            } else if sight_blocked(g, a, d, manhattan(a, t)) {
                None
            } else {
                Some(d)
            },
        },
    }
}

/// A shroom attacks a player exactly one orthogonal step away.
pub open spec fn shroom_decision(a: Coord, player: Option<Coord>) -> Option<Coord> {
    match player {
        None => None,
        Some(t) => if manhattan(a, t) == 1 {
            Some(Coord { x: (t.x - a.x) as i32, y: (t.y - a.y) as i32 })
        } else {
            None
        },
    }
}

/// A fish goes on along its facing toward the player or an empty tile, and
/// turns back otherwise.
pub open spec fn fish_decision(g: Map<Coord, Tile>, a: Coord, player: Option<Coord>) -> Option<
    Coord,
> {
    match (obj_at(g, a), player) {
        (Some(Obj::Fish { direction, .. }), Some(t)) => {
            let dst = spec_add(a, direction);
            if t == dst || (g.contains_key(dst) && obj_at(g, dst) is None) {
                Some(direction)
            } else {
                Some(Coord { x: (-direction.x) as i32, y: (-direction.y) as i32 })
            }
        },
        _ => None,
    }
}

/// Every object with its move token given, if it is an agent.
pub open spec fn tokens_given(g: Map<Coord, Tile>) -> Map<Coord, Tile> {
    Map::new(
        |c: Coord| g.contains_key(c),
        |c: Coord|
            Tile {
                obj: match g[c].obj {
                    Some(o) => Some(o.with_token(true)),
                    None => None,
                },
                ..g[c]
            },
    )
}

impl LogicalWorld {
    /// When it is the game's turn to play, every agent is given one move token,
    /// so that no agent moves twice.
    pub fn give_move_token_to_agents(&mut self)
        requires
            old(self).wf(),
        ensures
            final(self).wf(),
            final(self)@ == (WorldView { grid: tokens_given(old(self)@.grid), ..old(self)@ }),
    {
        let ghost g = self@.grid;
        let tiles = self.tiles();
        proof {
            self.lemma_entries();
        }
        let mut i: usize = 0;
        while i < tiles.len()
            invariant
                self.wf(),
                tiles@ == old(self).entries(),
                g == old(self)@.grid,
                forall|j: int|
                    0 <= j < tiles@.len() ==> #[trigger] g.contains_key(tiles@[j].0) && g[tiles@[j].0]
                        == tiles@[j].1,
                forall|c: Coord| #[trigger] g.contains_key(c) ==> exists|j: int|
                    0 <= j < tiles@.len() && tiles@[j].0 == c,
                forall|j: int, k: int|
                    0 <= j < tiles@.len() && 0 <= k < tiles@.len() && tiles@[j].0 == tiles@[k].0
                        ==> j == k,
                i <= tiles@.len(),
                self@.redo_count == old(self)@.redo_count,
                self@.max_redo_count == old(self)@.max_redo_count,
                self@.grid.dom() == g.dom(),
                forall|j: int| 0 <= j < i ==> #[trigger] self@.grid[tiles@[j].0] == tokens_given(g)[tiles@[j].0],
                forall|j: int| i <= j < tiles@.len() ==> #[trigger] self@.grid[tiles@[j].0] == g[tiles@[j].0],
            decreases tiles@.len() - i,
        {
            let (c, t) = tiles[i];
            assert(g.contains_key(tiles@[i as int].0));
            if let Some(o) = t.obj {
                let mut o2 = o;
                o2.give_move_token();
                self.set_obj(c, Some(o2));
                assert(self@.grid.dom() =~= g.dom());
            }
            assert(self@.grid[tiles@[i as int].0] == tokens_given(g)[tiles@[i as int].0]);
            i = i + 1;
        }
        proof {
            assert forall|c: Coord| #[trigger] self@.grid.contains_key(c) implies self@.grid[c]
                == tokens_given(g)[c] by {
                let j = choose|j: int| 0 <= j < tiles@.len() && tiles@[j].0 == c;
                assert(self@.grid[tiles@[j].0] == tokens_given(g)[tiles@[j].0]);
            }
            assert(self@.grid =~= tokens_given(g));
        }
    }
}

/// The tiles from `a` to `t` along a shared row or column lie within bounds, and
/// only the last of them is `t`.
pub proof fn lemma_toward(a: Coord, t: Coord, k: int)
    requires
        toward(a, t) is Some,
        a != t,
        in_bounds(a),
        in_bounds(t),
        0 <= k <= manhattan(a, t),
    ensures
        is_dir(toward(a, t)->0),
        exact(a, toward(a, t)->0, k),
        in_bounds(offset(a, toward(a, t)->0, k)),
        offset(a, toward(a, t)->0, k) == t <==> k == manhattan(a, t),
{
}

/// An agent other than the player, standing at `a`.
pub open spec fn is_agent_at(g: Map<Coord, Tile>, a: Coord) -> bool {
    obj_at(g, a) matches Some(o) && !(o is Bunny)
}

impl LogicalWorld {
    /// Simple enemy AI: chase the player along a row or a column.
    pub fn ai_decision(&self, agent_coords: Coord) -> (r: Option<Coord>)
        requires
            self.wf(),
            is_agent_at(self@.grid, agent_coords),
        ensures
            r == chase_decision(self@.grid, agent_coords, self.player()),
            r matches Some(d) ==> is_dir(d),
    {
        let ghost g = self@.grid;
        let ghost a = agent_coords;
        proof {
            self.lemma_player();
            assert(keys_in_bounds(g));
        }
        let target_coords = match self.player_coords() {
            Some(t) => t,
            None => {
                return None;
            },
        };
        assert(g.contains_key(target_coords) && g.contains_key(a));
        // Move toward the target if it is in a straight line.
        let direction = if agent_coords.x == target_coords.x {
            if target_coords.y < agent_coords.y {
                Coord::new(0, -1)
            } else {
                Coord::new(0, 1)
            }
        } else if agent_coords.y == target_coords.y {
            if target_coords.x < agent_coords.x {
                Coord::new(-1, 0)
            } else {
                Coord::new(1, 0)
            }
        } else {
            return None;
        };
        let ghost d = direction;
        let ghost n = manhattan(a, target_coords);
        // Avoid bumping into another enemy, it may help the player.
        let dst = agent_coords.add(direction);
        if let Some(o) = self.obj_copy(dst) {
            if o.is_enemy() {
                return None;
            }
        }
        // No vision through vision-blocking objects.
        let mut coords = agent_coords;
        let ghost mut k: int = 0;
        let mut vision_blocked = false;
        loop
            invariant_except_break
                self.wf(),
                g == self@.grid,
                a == agent_coords,
                d == direction,
                is_dir(d),
                toward(a, target_coords) == Some(d),
                in_bounds(a),
                in_bounds(target_coords),
                a != target_coords,
                n == manhattan(a, target_coords),
                0 <= k < n,
                coords == offset(a, d, k),
                !vision_blocked,
                forall|j: int| 1 <= j <= k ==> !blocks_sight(#[trigger] obj_at(g, offset(a, d, j))),
            ensures
                vision_blocked == sight_blocked(g, a, d, n),
            decreases n - k,
        {
            proof {
                lemma_toward(a, target_coords, k);
                lemma_toward(a, target_coords, k + 1);
                lemma_step(a, d, k);
            }
            coords = coords.add(direction);
            proof {
                k = k + 1;
            }
            if coords == target_coords {
                break;
            } else if let Some(o) = self.obj_copy(coords) {
                if o.blocks_vision() {
                    vision_blocked = true;
                    break;
                }
            }
        }
        if vision_blocked {
            return None;
        }
        // All good, it can move forward.
        Some(direction)
    }

    /// Shroom AI: attack the player when adjacent.
    pub fn shroom_ai_decision(&self, agent_coords: Coord) -> (r: Option<Coord>)
        requires
            self.wf(),
            is_agent_at(self@.grid, agent_coords),
        ensures
            r == shroom_decision(agent_coords, self.player()),
            r matches Some(d) ==> is_dir(d) && self.player() == Some(spec_add(agent_coords, d)),
    {
        proof {
            self.lemma_player();
            assert(keys_in_bounds(self@.grid));
        }
        let target_coords = match self.player_coords() {
            Some(t) => t,
            None => {
                return None;
            },
        };
        assert(self@.grid.contains_key(target_coords) && self@.grid.contains_key(agent_coords));
        let dx = target_coords.x - agent_coords.x;
        let dy = target_coords.y - agent_coords.y;
        let adx = if dx < 0 {
            -dx
        } else {
            dx
        };
        let ady = if dy < 0 {
            -dy
        } else {
            dy
        };
        if adx as i64 + ady as i64 == 1 {
            Some(Coord::new(dx, dy))
        } else {
            None
        }
    }

    /// Fish AI: go on along the facing, or turn back.
    pub fn fish_ai_decision(&self, agent_coords: Coord) -> (r: Option<Coord>)
        requires
            self.wf(),
            is_agent_at(self@.grid, agent_coords),
        ensures
            r == fish_decision(self@.grid, agent_coords, self.player()),
            r matches Some(d) ==> is_dir(d),
    {
        proof {
            self.lemma_player();
            assert(keys_in_bounds(self@.grid));
        }
        let direction = match self.obj_copy(agent_coords) {
            Some(Obj::Fish { direction, .. }) => direction,
            _ => {
                return None;
            },
        };
        assert(self@.grid[agent_coords].is_valid());
        let dst_coords = agent_coords.add(direction);
        let target_coords = match self.player_coords() {
            Some(t) => t,
            None => {
                return None;
            },
        };
        let nothing_ahead = self.tile(dst_coords).is_some() && self.obj_copy(dst_coords).is_none();
        if target_coords == dst_coords || nothing_ahead {
            Some(direction)
        } else {
            Some(direction.neg())
        }
    }
}

} // verus!
