//! The dungeon looks endless: every tile that is not a wall is surrounded by
//! walls, generated on demand.

use vstd::prelude::*;
use crate::coords::{COORD_LIMIT, Coord, in_bounds};
use crate::obj::{Ground, Obj, Tile};
use crate::world::{LogicalWorld, WorldView, obj_at};

verus! {

/// The nine tiles of the 3×3 block centred on a tile, as offsets.
pub open spec fn block_offsets() -> Seq<Coord> {
    seq![
        Coord { x: -1i32, y: -1i32 },
        Coord { x: 0i32, y: -1i32 },
        Coord { x: 1i32, y: -1i32 },
        Coord { x: -1i32, y: 0i32 },
        Coord { x: 0i32, y: 0i32 },
        Coord { x: 1i32, y: 0i32 },
        Coord { x: -1i32, y: 1i32 },
        Coord { x: 0i32, y: 1i32 },
        Coord { x: 1i32, y: 1i32 },
    ]
}

/// `a` and `b` are equal or adjacent, diagonals included.
pub open spec fn near(a: Coord, b: Coord) -> bool {
    -1 <= a.x - b.x <= 1 && -1 <= a.y - b.y <= 1
}

pub open spec fn wall_tile() -> Tile {
    Tile { ground: Ground::Floor, obj: Some(Obj::Wall), visible: false }
}

/// A tile that is not there and that walls in a tile that is not a wall.
pub open spec fn needs_wall(g: Map<Coord, Tile>, c: Coord) -> bool {
    &&& !g.contains_key(c)
    &&& in_bounds(c)
    &&& exists|k: Coord|
        #[trigger] g.contains_key(k) && !(obj_at(g, k) matches Some(Obj::Wall)) && near(c, k)
}

/// The grid with its missing walls generated.
pub open spec fn walled(g: Map<Coord, Tile>) -> Map<Coord, Tile> {
    Map::new(
        |c: Coord| g.contains_key(c) || needs_wall(g, c),
        |c: Coord|
            if g.contains_key(c) {
                g[c]
            } else {
                wall_tile()
            },
    )
}

impl LogicalWorld {
    /// There are walls everywhere: each tile that is not a wall gets walls on
    /// its missing neighbours, diagonals included, within the bounds.
    pub fn generated_walls_outside(self) -> (r: LogicalWorld)
        requires
            self.wf(),
        ensures
            r.wf(),
            r@ == (WorldView { grid: walled(self@.grid), ..self@ }),
    {
        let ghost g = self@.grid;
        let tiles = self.tiles();
        proof {
            assert(crate::resolver::keys_in_bounds(g));
        }
        let offsets: [Coord; 9] = [
            Coord { x: -1, y: -1 },
            Coord { x: 0, y: -1 },
            Coord { x: 1, y: -1 },
            Coord { x: -1, y: 0 },
            Coord { x: 0, y: 0 },
            Coord { x: 1, y: 0 },
            Coord { x: -1, y: 1 },
            Coord { x: 0, y: 1 },
            Coord { x: 1, y: 1 },
        ];
        assert(offsets@ =~= block_offsets());
        let mut w = self;
        let mut i: usize = 0;
        while i < tiles.len()
            invariant
                w.wf(),
                offsets@ == block_offsets(),
                forall|j: int| 0 <= j < tiles@.len() ==> #[trigger] g.contains_key(tiles@[j].0) && g[tiles@[j].0]
                    == tiles@[j].1,
                forall|c: Coord| #[trigger] g.contains_key(c) ==> in_bounds(c),
                i <= tiles@.len(),
                w@.redo_count == self@.redo_count,
                w@.max_redo_count == self@.max_redo_count,
                forall|c: Coord| #[trigger] g.contains_key(c) ==> w@.grid.contains_key(c) && w@.grid[c] == g[c],
                forall|c: Coord|
                    #[trigger] w@.grid.contains_key(c) && !g.contains_key(c) ==> w@.grid[c] == wall_tile()
                        && needs_wall(g, c),
                forall|j: int, c: Coord|
                    0 <= j < i && !(tiles@[j].1.obj matches Some(Obj::Wall)) && in_bounds(c) && near(
                        c,
                        #[trigger] tiles@[j].0,
                    ) ==> #[trigger] w@.grid.contains_key(c),
            decreases tiles@.len() - i,
        {
            let (k, t) = tiles[i];
            assert(g.contains_key(tiles@[i as int].0));
            if !matches!(t.obj, Some(Obj::Wall)) {
                let mut q: usize = 0;
                while q < 9
                    invariant
                        w.wf(),
                        offsets@ == block_offsets(),
                        g.contains_key(k),
                        g[k] == t,
                        in_bounds(k),
                        !(t.obj matches Some(Obj::Wall)),
                        q <= 9,
                        w@.redo_count == self@.redo_count,
                        w@.max_redo_count == self@.max_redo_count,
                        forall|c: Coord| #[trigger] g.contains_key(c) ==> w@.grid.contains_key(c) && w@.grid[c]
                            == g[c],
                        forall|c: Coord|
                            #[trigger] w@.grid.contains_key(c) && !g.contains_key(c) ==> w@.grid[c]
                                == wall_tile() && needs_wall(g, c),
                        forall|j: int, c: Coord|
                            0 <= j < i && !(tiles@[j].1.obj matches Some(Obj::Wall)) && in_bounds(c)
                                && near(c, #[trigger] tiles@[j].0) ==> #[trigger] w@.grid.contains_key(c),
                        forall|p: int|
                            0 <= p < q && in_bounds(
                                #[trigger] crate::coords::spec_add(k, block_offsets()[p]),
                            ) ==> w@.grid.contains_key(crate::coords::spec_add(k, block_offsets()[p])),
                    decreases 9 - q,
                {
                    let o = offsets[q];
                    let c = Coord { x: k.x + o.x, y: k.y + o.y };
                    assert(c == crate::coords::spec_add(k, block_offsets()[q as int]));
                    if -COORD_LIMIT <= c.x && c.x <= COORD_LIMIT && -COORD_LIMIT <= c.y && c.y
                        <= COORD_LIMIT {
                        proof {
                            if !g.contains_key(c) {
                                assert(g.contains_key(k) && !(obj_at(g, k) matches Some(Obj::Wall))
                                    && near(c, k));
                            }
                        }
                        w.place_tile_no_overwrite(c, Tile::obj(Obj::Wall));
                    }
                    q = q + 1;
                }
                assert forall|c: Coord| in_bounds(c) && near(c, k) implies #[trigger] w@.grid.contains_key(
                    c,
                ) by {
                    let p: int = (c.x - k.x + 1) + 3 * (c.y - k.y + 1);
                    assert(c == crate::coords::spec_add(k, block_offsets()[p]));
                }
            }
            i = i + 1;
        }
        proof {
            self.lemma_entries();
            assert forall|c: Coord| needs_wall(g, c) implies #[trigger] w@.grid.contains_key(c) by {
                let k = choose|k: Coord|
                    #[trigger] g.contains_key(k) && !(obj_at(g, k) matches Some(Obj::Wall)) && near(c, k);
                let j = choose|j: int| 0 <= j < tiles@.len() && tiles@[j].0 == k;
                assert(g.contains_key(tiles@[j].0));
            }
            assert(w@.grid =~= walled(g));
        }
        w
    }
}

} // verus!
