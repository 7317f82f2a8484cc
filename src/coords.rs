//! Integer grid coordinates and the four unit directions.

use vstd::prelude::*;

verus! {

/// Coordinates of a tile, or a displacement between two tiles.
#[derive(Clone, Copy, PartialEq, Eq, Debug, Hash, Structural)]
pub struct Coord {
    pub x: i32,
    pub y: i32,
}

/// Tiles of a world lie within this distance of the origin on both axes, so that
/// the neighbours of any tile, and their neighbours, are representable.
pub const COORD_LIMIT: i32 = 1_000_000_000;

pub open spec fn in_bounds(c: Coord) -> bool {
    -COORD_LIMIT <= c.x <= COORD_LIMIT && -COORD_LIMIT <= c.y <= COORD_LIMIT
}

/// One of the four orthogonal unit vectors.
pub open spec fn is_dir(d: Coord) -> bool {
    ||| d.x == 0 && (d.y == 1 || d.y == -1)
    ||| d.y == 0 && (d.x == 1 || d.x == -1)
}

/// `k * a` for a component `a` of a unit direction, written without a product.
pub open spec fn scale(k: int, a: i32) -> int {
    if a > 0 {
        k
    } else if a < 0 {
        -k
    } else {
        0
    }
}

/// The tile `k` steps away from `c` in direction `d` (backwards when `k < 0`).
pub open spec fn offset(c: Coord, d: Coord, k: int) -> Coord {
    Coord { x: (c.x + scale(k, d.x)) as i32, y: (c.y + scale(k, d.y)) as i32 }
}

pub open spec fn spec_add(a: Coord, b: Coord) -> Coord {
    Coord { x: (a.x + b.x) as i32, y: (a.y + b.y) as i32 }
}

/// Squared Euclidean distance between two tiles.
pub open spec fn dist2(a: Coord, b: Coord) -> int {
    (a.x - b.x) * (a.x - b.x) + (a.y - b.y) * (a.y - b.y)
}

impl Coord {
    pub fn new(x: i32, y: i32) -> (r: Coord)
        ensures
            r == (Coord { x, y }),
    {
        Coord { x, y }
    }

    /// The neighbouring tile in direction `d`.
    pub fn add(self, d: Coord) -> (r: Coord)
        requires
            in_bounds(self),
            is_dir(d),
        ensures
            r == spec_add(self, d),
            r == offset(self, d, 1),
            r.x == self.x + d.x,
            r.y == self.y + d.y,
    {
        Coord { x: self.x + d.x, y: self.y + d.y }
    }

    /// The neighbouring tile opposite to direction `d`.
    pub fn sub(self, d: Coord) -> (r: Coord)
        requires
            in_bounds(self),
            is_dir(d),
        ensures
            r == offset(self, d, -1),
            r.x == self.x - d.x,
            r.y == self.y - d.y,
    {
        Coord { x: self.x - d.x, y: self.y - d.y }
    }

    /// The opposite direction.
    pub fn neg(self) -> (r: Coord)
        requires
            is_dir(self),
        ensures
            is_dir(r),
            r.x == -self.x,
            r.y == -self.y,
    {
        Coord { x: -self.x, y: -self.y }
    }
}

/// Right, down, left and up.
pub open spec fn dirs() -> Seq<Coord> {
    seq![
        Coord { x: 1i32, y: 0i32 },
        Coord { x: 0i32, y: 1i32 },
        Coord { x: -1i32, y: 0i32 },
        Coord { x: 0i32, y: -1i32 },
    ]
}

/// The four directions, in the order right, down, left, up.
pub fn four_directions() -> (r: [Coord; 4])
    ensures
        r@ == dirs(),
        forall|i: int| 0 <= i < 4 ==> is_dir(#[trigger] r@[i]),
{
    let r = [Coord { x: 1, y: 0 }, Coord { x: 0, y: 1 }, Coord { x: -1, y: 0 }, Coord { x: 0, y: -1 }];
    assert(r@ =~= seq![
            Coord { x: 1i32, y: 0i32 },
            Coord { x: 0i32, y: 1i32 },
            Coord { x: -1i32, y: 0i32 },
            Coord { x: 0i32, y: -1i32 },
        ]);
    r
}

} // verus!
