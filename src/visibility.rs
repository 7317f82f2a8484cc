//! Which tiles the player sees, recomputed from scratch on every transition.
//!
//! Vision reaches a Euclidean radius of 6.5 tiles; as squared distances between
//! tiles are integers, that is a squared distance of at most 42. Lines of sight
//! are marched in steps of a tenth of a tile, in exact integer arithmetic.

use vstd::prelude::*;
use crate::coords::{COORD_LIMIT, Coord, dirs, dist2, four_directions, in_bounds, spec_add};
use crate::obj::Tile;
use crate::obj::Obj;
use crate::world::{LogicalWorld, WorldView, blocks_sight, obj_at};

verus! {

/// Largest squared distance from the player at which a tile may be seen.
pub const SIGHT_RADIUS2: i64 = 42;

pub open spec fn within_sight(p: Coord, c: Coord) -> bool {
    dist2(p, c) <= SIGHT_RADIUS2
}

/// The number of half-integers from `1/2` on that `a / (10 * sqrt(s))` reaches,
/// counted from `n`: for `a >= 0`, this rounds that ratio half away from zero.
pub open spec fn half_steps(a: int, s: int, n: int) -> int
    decreases a - n,
{
    if n < a && (2 * n + 1) * (2 * n + 1) * 100 * s <= 4 * a * a {
        half_steps(a, s, n + 1)
    } else {
        n
    }
}

/// `num / (10 * sqrt(s))` rounded half away from zero.
pub open spec fn round_ratio(num: int, s: int) -> int {
    if num >= 0 {
        half_steps(num, s, 0)
    } else {
        -half_steps(-num, s, 0)
    }
}

/// The tile under the point `k` tenths of a tile from `p` toward `c`.
pub open spec fn ray_cell(p: Coord, c: Coord, k: int) -> Coord {
    let s = dist2(p, c);
    Coord {
        x: (p.x + round_ratio(k * (c.x - p.x), s)) as i32,
        y: (p.y + round_ratio(k * (c.y - p.y), s)) as i32,
    }
}

/// The ray from `p` toward `c`, from its `k`-th point on, reaches within 0.3 of
/// `c` before it enters a vision-blocking tile other than `c` itself.
pub open spec fn ray_clear(g: Map<Coord, Tile>, p: Coord, c: Coord, k: int) -> bool
    decreases 100 * dist2(p, c) - k,
{
    if (k + 3) * (k + 3) > 100 * dist2(p, c) || k < 0 || k >= 100 * dist2(p, c) {
        true
    } else if blocks_sight(obj_at(g, ray_cell(p, c, k))) {
        ray_cell(p, c, k) == c
    } else {
        ray_clear(g, p, c, k + 1)
    }
}

/// The main pass: the player's own tile, and tiles within sight reached by a ray.
pub open spec fn ray_visible(g: Map<Coord, Tile>, p: Coord, c: Coord) -> bool {
    c == p || (within_sight(p, c) && ray_clear(g, p, c, 0))
}

pub open spec fn perp(d: Coord) -> Coord {
    Coord { x: (-d.y) as i32, y: d.x }
}

pub open spec fn neighbour(c: Coord, i: int) -> Coord {
    spec_add(c, dirs()[i])
}

/// A tile that exists, is seen in the main pass, and does not block vision.
pub open spec fn open_and_seen(g: Map<Coord, Tile>, p: Coord, c: Coord) -> bool {
    g.contains_key(c) && ray_visible(g, p, c) && !blocks_sight(obj_at(g, c))
}

/// The edge pass: a vision-blocking tile within sight next to a tile seen open.
pub open spec fn edge_visible(g: Map<Coord, Tile>, p: Coord, c: Coord) -> bool {
    ||| ray_visible(g, p, c)
    ||| within_sight(p, c) && blocks_sight(obj_at(g, c)) && exists|i: int|
        0 <= i < 4 && open_and_seen(g, p, #[trigger] neighbour(c, i))
}

/// A concave corner around `c`: its neighbours along `d` and along the
/// perpendicular of `d` are seen and block vision, and the diagonal tile between
/// them is seen, open, and nearer to the player than the three others.
pub open spec fn completes_corner(g: Map<Coord, Tile>, p: Coord, c: Coord, d: Coord) -> bool {
    let adjacent = spec_add(c, d);
    let other = spec_add(c, perp(d));
    let corner = spec_add(adjacent, perp(d));
    &&& g.contains_key(adjacent) && edge_visible(g, p, adjacent) && blocks_sight(obj_at(g, adjacent))
    &&& g.contains_key(other) && edge_visible(g, p, other) && blocks_sight(obj_at(g, other))
    &&& dist2(corner, p) < dist2(c, p) && dist2(corner, p) < dist2(adjacent, p) && dist2(corner, p)
        < dist2(other, p)
    &&& g.contains_key(corner) && edge_visible(g, p, corner) && !blocks_sight(obj_at(g, corner))
}

/// The corner pass, over the result of the edge pass.
pub open spec fn corner_visible(g: Map<Coord, Tile>, p: Coord, c: Coord) -> bool {
    ||| edge_visible(g, p, c)
    ||| within_sight(p, c) && blocks_sight(obj_at(g, c)) && exists|i: int|
        0 <= i < 4 && completes_corner(g, p, c, #[trigger] dirs()[i])
}

/// A vision gem next to the player grants sight through walls.
pub open spec fn gem_adjacent(g: Map<Coord, Tile>, p: Coord) -> bool {
    exists|i: int| 0 <= i < 4 && obj_at(g, #[trigger] neighbour(p, i)) matches Some(
        Obj::VisionGem,
    )
}

/// Visibility by a fixed rule: all without a player, by distance alone otherwise.
pub open spec fn plain_visible(player: Option<Coord>, c: Coord) -> bool {
    match player {
        None => true,
        Some(p) => within_sight(p, c),
    }
}

/// Whether the tile at `c` is visible to a player at `player`.
pub open spec fn visible(g: Map<Coord, Tile>, player: Option<Coord>, c: Coord) -> bool {
    match player {
        None => true,
        Some(p) => if gem_adjacent(g, p) {
            within_sight(p, c)
        } else {
            corner_visible(g, p, c)
        },
    }
}

/// The grid with every visibility flag recomputed.
pub open spec fn with_visibility(g: Map<Coord, Tile>, player: Option<Coord>) -> Map<Coord, Tile> {
    Map::new(|c: Coord| g.contains_key(c), |c: Coord| Tile { visible: visible(g, player, c), ..g[c] })
}

/// The grid with the visibility flag of every tile set to `f`.
pub open spec fn relabeled(g: Map<Coord, Tile>, f: spec_fn(Coord) -> bool) -> Map<Coord, Tile> {
    Map::new(|c: Coord| g.contains_key(c), |c: Coord| Tile { visible: f(c), ..g[c] })
}

/// Coordinates a little beyond the bounds, such as a neighbour's neighbour.
pub open spec fn near_bounds(c: Coord) -> bool {
    -COORD_LIMIT - 2 <= c.x <= COORD_LIMIT + 2 && -COORD_LIMIT - 2 <= c.y <= COORD_LIMIT + 2
}

fn sq_dist(a: Coord, b: Coord) -> (r: i64)
    requires
        near_bounds(a),
        near_bounds(b),
    ensures
        r == dist2(a, b),
{
    let dx = a.x as i64 - b.x as i64;
    let dy = a.y as i64 - b.y as i64;
    assert(0 <= dx * dx <= 4_100_000_000_000_000_000) by (nonlinear_arith)
        requires
            -2_000_000_010 <= dx <= 2_000_000_010,
    ;
    assert(0 <= dy * dy <= 4_100_000_000_000_000_000) by (nonlinear_arith)
        requires
            -2_000_000_010 <= dy <= 2_000_000_010,
    ;
    dx * dx + dy * dy
}

pub proof fn lemma_dist2_symmetric(a: Coord, b: Coord)
    ensures
        dist2(a, b) == dist2(b, a),
{
    assert((a.x - b.x) * (a.x - b.x) == (b.x - a.x) * (b.x - a.x)) by (nonlinear_arith);
    assert((a.y - b.y) * (a.y - b.y) == (b.y - a.y) * (b.y - a.y)) by (nonlinear_arith);
}

/// A component of a vector of squared length at most 42 is at most 6.
proof fn lemma_small_component(a: int, b: int)
    requires
        a * a + b * b <= SIGHT_RADIUS2,
    ensures
        -6 <= a <= 6,
        -6 <= b <= 6,
{
    assert(b * b >= 0) by (nonlinear_arith);
    assert(a * a >= 0) by (nonlinear_arith);
    assert(-6 <= a <= 6) by (nonlinear_arith)
        requires
            a * a <= 42,
    ;
    assert(-6 <= b <= 6) by (nonlinear_arith)
        requires
            b * b <= 42,
    ;
}

fn half_steps_of(a: i64, s: i64) -> (r: i64)
    requires
        0 <= a <= 30_000,
        1 <= s <= SIGHT_RADIUS2,
    ensures
        r == half_steps(a as int, s as int, 0),
        0 <= r <= a,
{
    let mut n: i64 = 0;
    loop
        invariant
            0 <= a <= 30_000,
            1 <= s <= SIGHT_RADIUS2,
            0 <= n <= a,
            half_steps(a as int, s as int, 0) == half_steps(a as int, s as int, n as int),
        ensures
            n == half_steps(a as int, s as int, 0),
        decreases a - n,
    {
        if n >= a {
            break;
        }
        assert(0 <= (2 * n + 1) * (2 * n + 1) <= 3_700_000_000) by (nonlinear_arith)
            requires
                0 <= n < 30_000,
        ;
        assert(0 <= (2 * n + 1) * (2 * n + 1) * 100 * s <= 3_700_000_000 * 4200) by (nonlinear_arith)
            requires
                0 <= (2 * n + 1) * (2 * n + 1) <= 3_700_000_000,
                1 <= s <= 42,
        ;
        assert(0 <= 4 * a * a <= 3_600_000_000) by (nonlinear_arith)
            requires
                0 <= a <= 30_000,
        ;
        if (2 * n + 1) * (2 * n + 1) * 100 * s <= 4 * a * a {
            n = n + 1;
        } else {
            break;
        }
    }
    n
}

fn round_ratio_of(num: i64, s: i64) -> (r: i64)
    requires
        -30_000 <= num <= 30_000,
        1 <= s <= SIGHT_RADIUS2,
    ensures
        r == round_ratio(num as int, s as int),
        -30_000 <= r <= 30_000,
{
    if num >= 0 {
        half_steps_of(num, s)
    } else {
        -half_steps_of(-num, s)
    }
}

impl LogicalWorld {
    /// Sets the visibility flag of every tile, listed in `tiles` in storage
    /// order, to the matching entry of `flags`.
    fn apply_visibility(
        &mut self,
        tiles: &Vec<(Coord, Tile)>,
        flags: &Vec<bool>,
        Ghost(f): Ghost<spec_fn(Coord) -> bool>,
    )
        requires
            old(self).wf(),
            tiles@ == old(self).entries(),
            flags@.len() == tiles@.len(),
            forall|i: int| 0 <= i < tiles@.len() ==> flags@[i] == f(#[trigger] tiles@[i].0),
        ensures
            final(self).wf(),
            final(self)@ == (WorldView { grid: relabeled(old(self)@.grid, f), ..old(self)@ }),
    {
        let ghost g = self@.grid;
        proof {
            old(self).lemma_entries();
        }
        let mut i: usize = 0;
        while i < tiles.len()
            invariant
                self.wf(),
                g == old(self)@.grid,
                flags@.len() == tiles@.len(),
                forall|j: int| 0 <= j < tiles@.len() ==> flags@[j] == f(#[trigger] tiles@[j].0),
                forall|j: int|
                    0 <= j < tiles@.len() ==> #[trigger] g.contains_key(tiles@[j].0) && g[tiles@[j].0]
                        == tiles@[j].1,
                forall|c: Coord| #[trigger] g.contains_key(c) ==> exists|j: int|
                    0 <= j < tiles@.len() && tiles@[j].0 == c,
                forall|j: int, k: int|
                    0 <= j < tiles@.len() && 0 <= k < tiles@.len() && tiles@[j].0 == tiles@[k].0
                        ==> j == k,
                i <= tiles@.len(),
                self@.redo_count == old(self)@.redo_count,
                self@.max_redo_count == old(self)@.max_redo_count,
                self@.grid.dom() == g.dom(),
                forall|j: int| 0 <= j < i ==> #[trigger] self@.grid[tiles@[j].0] == relabeled(g, f)[tiles@[j].0],
                forall|j: int| i <= j < tiles@.len() ==> #[trigger] self@.grid[tiles@[j].0] == g[tiles@[j].0],
            decreases tiles@.len() - i,
        {
            let c = tiles[i].0;
            assert(g.contains_key(tiles@[i as int].0));
            self.set_visible(c, flags[i]);
            assert(self@.grid.dom() =~= g.dom());
            assert(self@.grid[tiles@[i as int].0] == relabeled(g, f)[tiles@[i as int].0]);
            i = i + 1;
        }
        proof {
            assert forall|c: Coord| #[trigger] self@.grid.contains_key(c) implies self@.grid[c]
                == relabeled(g, f)[c] by {
                let j = choose|j: int| 0 <= j < tiles@.len() && tiles@[j].0 == c;
                assert(self@.grid[tiles@[j].0] == relabeled(g, f)[tiles@[j].0]);
            }
            assert(self@.grid =~= relabeled(g, f));
        }
    }

    fn blocks_sight_at(&self, coords: Coord) -> (r: bool)
        requires
            self.entries_ok(),
        ensures
            r == blocks_sight(obj_at(self@.grid, coords)),
    {
        match self.obj_copy(coords) {
            Some(o) => o.blocks_vision(),
            None => false,
        }
    }

    /// The main pass for the tile at `c`, seen from `p`.
    fn ray_visible_at(&self, p: Coord, c: Coord) -> (r: bool)
        requires
            self.wf(),
            in_bounds(p),
            in_bounds(c),
        ensures
            r == ray_visible(self@.grid, p, c),
    {
        if c == p {
            return true;
        }
        let s = sq_dist(p, c);
        if s > SIGHT_RADIUS2 {
            return false;
        }
        let ghost g = self@.grid;
        let dx = c.x as i64 - p.x as i64;
        let dy = c.y as i64 - p.y as i64;
        proof {
            assert((p.x - c.x) * (p.x - c.x) == dx * dx) by (nonlinear_arith)
                requires
                    dx == c.x - p.x,
            ;
            assert((p.y - c.y) * (p.y - c.y) == dy * dy) by (nonlinear_arith)
                requires
                    dy == c.y - p.y,
            ;
            lemma_small_component(dx as int, dy as int);
            assert(s >= 1) by (nonlinear_arith)
                requires
                    s == dx * dx + dy * dy,
                    dx != 0 || dy != 0,
            ;
        }
        let mut k: i64 = 0;
        loop
            invariant
                self.wf(),
                g == self@.grid,
                in_bounds(p),
                in_bounds(c),
                c != p,
                s == dist2(p, c),
                1 <= s <= SIGHT_RADIUS2,
                dx == c.x - p.x,
                dy == c.y - p.y,
                -6 <= dx <= 6,
                -6 <= dy <= 6,
                0 <= k <= 100 * s,
                ray_clear(g, p, c, 0) == ray_clear(g, p, c, k as int),
            decreases 100 * s - k,
        {
            assert(0 <= (k + 3) * (k + 3) <= 18_000_000) by (nonlinear_arith)
                requires
                    0 <= k <= 4200,
            ;
            if (k + 3) * (k + 3) > 100 * s || k >= 100 * s {
                // The ray got close enough to the target.
                return true;
            }
            assert(-30_000 <= k * dx <= 30_000 && -30_000 <= k * dy <= 30_000) by (nonlinear_arith)
                requires
                    0 <= k <= 4200,
                    -6 <= dx <= 6,
                    -6 <= dy <= 6,
            ;
            let rx = round_ratio_of(k * dx, s);
            let ry = round_ratio_of(k * dy, s);
            let cell = Coord { x: (p.x as i64 + rx) as i32, y: (p.y as i64 + ry) as i32 };
            assert(cell == ray_cell(p, c, k as int));
            if self.blocks_sight_at(cell) {
                // A vision-blocking object stands on the line of sight.
                return cell == c;
            }
            k = k + 1;
        }
    }

    /// The edge pass for the tile at `c`, read from the result `self` of the
    /// main pass over `g`.
    fn edge_visible_at(&self, Ghost(g): Ghost<Map<Coord, Tile>>, p: Coord, c: Coord) -> (r: bool)
        requires
            self.wf(),
            self@.grid == relabeled(g, |x: Coord| ray_visible(g, p, x)),
            in_bounds(p),
            in_bounds(c),
            self@.grid.contains_key(c),
        ensures
            r == edge_visible(g, p, c),
    {
        let seen = self.tile(c).unwrap().visible;
        if seen {
            return true;
        }
        if sq_dist(p, c) > SIGHT_RADIUS2 || !self.blocks_sight_at(c) {
            return false;
        }
        assert(within_sight(p, c) && blocks_sight(obj_at(g, c)));
        let dirs4 = four_directions();
        let mut i: usize = 0;
        while i < 4
            invariant
                self.wf(),
                within_sight(p, c) && blocks_sight(obj_at(g, c)),
                self@.grid == relabeled(g, |x: Coord| ray_visible(g, p, x)),
                in_bounds(c),
                dirs4@ == dirs(),
                i <= 4,
                forall|j: int| 0 <= j < i ==> !open_and_seen(g, p, #[trigger] neighbour(c, j)),
            decreases 4 - i,
        {
            let n = c.add(dirs4[i]);
            if let Some(t) = self.tile(n) {
                if t.visible && !self.blocks_sight_at(n) {
                    assert(open_and_seen(g, p, neighbour(c, i as int)));
                    return true;
                }
            }
            i = i + 1;
        }
        false
    }

    /// The corner pass for the tile at `c`, read from the result `self` of the
    /// edge pass over `g`.
    fn corner_visible_at(&self, Ghost(g): Ghost<Map<Coord, Tile>>, p: Coord, c: Coord) -> (r: bool)
        requires
            self.wf(),
            self@.grid == relabeled(g, |x: Coord| edge_visible(g, p, x)),
            in_bounds(p),
            in_bounds(c),
            self@.grid.contains_key(c),
        ensures
            r == corner_visible(g, p, c),
    {
        let seen = self.tile(c).unwrap().visible;
        if seen {
            return true;
        }
        let dist_c = sq_dist(c, p);
        proof {
            lemma_dist2_symmetric(c, p);
        }
        if dist_c > SIGHT_RADIUS2 || !self.blocks_sight_at(c) {
            return false;
        }
        assert(within_sight(p, c) && blocks_sight(obj_at(g, c)));
        let dirs4 = four_directions();
        let mut i: usize = 0;
        while i < 4
            invariant
                self.wf(),
                within_sight(p, c) && blocks_sight(obj_at(g, c)),
                self@.grid == relabeled(g, |x: Coord| edge_visible(g, p, x)),
                in_bounds(c),
                in_bounds(p),
                dist_c == dist2(c, p),
                dirs4@ == dirs(),
                i <= 4,
                forall|j: int| 0 <= j < i ==> !completes_corner(g, p, c, #[trigger] dirs()[j]),
            decreases 4 - i,
        {
            let d = dirs4[i];
            let adjacent = Coord { x: c.x + d.x, y: c.y + d.y };
            let other = Coord { x: c.x - d.y, y: c.y + d.x };
            let corner = Coord { x: c.x + d.x - d.y, y: c.y + d.y + d.x };
            assert(adjacent == spec_add(c, d));
            assert(other == spec_add(c, perp(d)));
            assert(corner == spec_add(adjacent, perp(d)));
            let corner_dist = sq_dist(corner, p);
            let nearest = corner_dist < dist_c && corner_dist < sq_dist(adjacent, p) && corner_dist
                < sq_dist(other, p);
            let adjacent_ok = match self.tile(adjacent) {
                Some(t) => t.visible && self.blocks_sight_at(adjacent),
                None => false,
            };
            let other_ok = match self.tile(other) {
                Some(t) => t.visible && self.blocks_sight_at(other),
                None => false,
            };
            let corner_ok = match self.tile(corner) {
                Some(t) => t.visible && !self.blocks_sight_at(corner),
                None => false,
            };
            if adjacent_ok && other_ok && nearest && corner_ok {
                // A corner that looks better when visible.
                assert(completes_corner(g, p, c, dirs()[i as int]));
                return true;
            }
            i = i + 1;
        }
        false
    }
}

impl LogicalWorld {
    /// The flags of the main pass, for each tile of `tiles`.
    fn ray_flags(&self, tiles: &Vec<(Coord, Tile)>, p: Coord) -> (r: Vec<bool>)
        requires
            self.wf(),
            in_bounds(p),
            forall|i: int| 0 <= i < tiles@.len() ==> #[trigger] self@.grid.contains_key(tiles@[i].0),
        ensures
            r@.len() == tiles@.len(),
            forall|i: int| 0 <= i < tiles@.len() ==> r@[i] == ray_visible(self@.grid, p, #[trigger] tiles@[i].0),
    {
        let mut flags: Vec<bool> = Vec::new();
        let mut i: usize = 0;
        while i < tiles.len()
            invariant
                self.wf(),
                in_bounds(p),
                forall|j: int| 0 <= j < tiles@.len() ==> #[trigger] self@.grid.contains_key(tiles@[j].0),
                i <= tiles@.len(),
                flags@.len() == i,
                forall|j: int| 0 <= j < i ==> flags@[j] == ray_visible(self@.grid, p, #[trigger] tiles@[j].0),
            decreases tiles@.len() - i,
        {
            assert(self@.grid.contains_key(tiles@[i as int].0));
            flags.push(self.ray_visible_at(p, tiles[i].0));
            i = i + 1;
        }
        flags
    }

    /// The flags of the edge pass, read from the result `self` of the main pass.
    fn edge_flags(&self, Ghost(g): Ghost<Map<Coord, Tile>>, tiles: &Vec<(Coord, Tile)>, p: Coord) -> (r: Vec<bool>)
        requires
            self.wf(),
            self@.grid == relabeled(g, |x: Coord| ray_visible(g, p, x)),
            in_bounds(p),
            forall|i: int| 0 <= i < tiles@.len() ==> #[trigger] self@.grid.contains_key(tiles@[i].0),
        ensures
            r@.len() == tiles@.len(),
            forall|i: int| 0 <= i < tiles@.len() ==> r@[i] == edge_visible(g, p, #[trigger] tiles@[i].0),
    {
        let mut flags: Vec<bool> = Vec::new();
        let mut i: usize = 0;
        while i < tiles.len()
            invariant
                self.wf(),
                self@.grid == relabeled(g, |x: Coord| ray_visible(g, p, x)),
                in_bounds(p),
                forall|j: int| 0 <= j < tiles@.len() ==> #[trigger] self@.grid.contains_key(tiles@[j].0),
                i <= tiles@.len(),
                flags@.len() == i,
                forall|j: int| 0 <= j < i ==> flags@[j] == edge_visible(g, p, #[trigger] tiles@[j].0),
            decreases tiles@.len() - i,
        {
            assert(self@.grid.contains_key(tiles@[i as int].0));
            flags.push(self.edge_visible_at(Ghost(g), p, tiles[i].0));
            i = i + 1;
        }
        flags
    }

    /// The flags of the corner pass, read from the result `self` of the edge pass.
    fn corner_flags(&self, Ghost(g): Ghost<Map<Coord, Tile>>, tiles: &Vec<(Coord, Tile)>, p: Coord) -> (r: Vec<bool>)
        requires
            self.wf(),
            self@.grid == relabeled(g, |x: Coord| edge_visible(g, p, x)),
            in_bounds(p),
            forall|i: int| 0 <= i < tiles@.len() ==> #[trigger] self@.grid.contains_key(tiles@[i].0),
        ensures
            r@.len() == tiles@.len(),
            forall|i: int| 0 <= i < tiles@.len() ==> r@[i] == corner_visible(g, p, #[trigger] tiles@[i].0),
    {
        let mut flags: Vec<bool> = Vec::new();
        let mut i: usize = 0;
        while i < tiles.len()
            invariant
                self.wf(),
                self@.grid == relabeled(g, |x: Coord| edge_visible(g, p, x)),
                in_bounds(p),
                forall|j: int| 0 <= j < tiles@.len() ==> #[trigger] self@.grid.contains_key(tiles@[j].0),
                i <= tiles@.len(),
                flags@.len() == i,
                forall|j: int| 0 <= j < i ==> flags@[j] == corner_visible(g, p, #[trigger] tiles@[j].0),
            decreases tiles@.len() - i,
        {
            assert(self@.grid.contains_key(tiles@[i as int].0));
            flags.push(self.corner_visible_at(Ghost(g), p, tiles[i].0));
            i = i + 1;
        }
        flags
    }

    /// Flags that a fixed rule gives: everything seen without a player, and
    /// everything within sight with a vision gem next to the player.
    fn plain_flags(&self, tiles: &Vec<(Coord, Tile)>, player: Option<Coord>) -> (r: Vec<bool>)
        requires
            self.wf(),
            player matches Some(p) ==> in_bounds(p),
            forall|i: int| 0 <= i < tiles@.len() ==> #[trigger] self@.grid.contains_key(tiles@[i].0),
        ensures
            r@.len() == tiles@.len(),
            forall|i: int| 0 <= i < tiles@.len() ==> r@[i] == #[trigger] plain_visible(player, tiles@[i].0),
    {
        proof {
            assert(crate::resolver::keys_in_bounds(self@.grid));
        }
        let mut flags: Vec<bool> = Vec::new();
        let mut i: usize = 0;
        while i < tiles.len()
            invariant
                self.wf(),
                player matches Some(p) ==> in_bounds(p),
                forall|j: int| 0 <= j < tiles@.len() ==> #[trigger] self@.grid.contains_key(tiles@[j].0),
                i <= tiles@.len(),
                flags@.len() == i,
                forall|j: int| 0 <= j < i ==> flags@[j] == #[trigger] plain_visible(player, tiles@[j].0),
            decreases tiles@.len() - i,
        {
            assert(self@.grid.contains_key(tiles@[i as int].0));
            let flag = match player {
                None => true,
                Some(p) => sq_dist(p, tiles[i].0) <= SIGHT_RADIUS2,
            };
            flags.push(flag);
            assert(flags@[i as int] == plain_visible(player, tiles@[i as int].0));
            i = i + 1;
        }
        flags
    }

    /// Is a vision gem next to the player at `p`?
    fn gem_adjacent_to(&self, p: Coord) -> (r: bool)
        requires
            self.wf(),
            in_bounds(p),
        ensures
            r == gem_adjacent(self@.grid, p),
    {
        let dirs4 = four_directions();
        let mut i: usize = 0;
        while i < 4
            invariant
                self.wf(),
                in_bounds(p),
                dirs4@ == dirs(),
                i <= 4,
                forall|j: int| 0 <= j < i ==> !(obj_at(self@.grid, #[trigger] neighbour(p, j)) matches Some(Obj::VisionGem)),
            decreases 4 - i,
        {
            let adjacent_coords = p.add(dirs4[i]);
            if let Some(Obj::VisionGem) = self.obj_copy(adjacent_coords) {
                assert(obj_at(self@.grid, neighbour(p, i as int)) matches Some(Obj::VisionGem));
                return true;
            }
            i = i + 1;
        }
        false
    }

    /// Computes the visibility of every tile, from scratch. Each pass reads only
    /// the complete result of the previous one.
    pub fn updated_visibility(self) -> (r: LogicalWorld)
        requires
            self.wf(),
        ensures
            r.wf(),
            r@ == (WorldView { grid: with_visibility(self@.grid, self.player()), ..self@ }),
    {
        let ghost g = self@.grid;
        let player = self.player_coords();
        let tiles = self.tiles();
        proof {
            self.lemma_player();
            assert(crate::resolver::keys_in_bounds(g));
        }
        let mut gem = false;
        if let Some(p) = player {
            gem = self.gem_adjacent_to(p);
        }
        if player.is_none() || gem {
            let ghost f = |c: Coord| plain_visible(player, c);
            let flags = self.plain_flags(&tiles, player);
            let mut w = self.copy();
            w.apply_visibility(&tiles, &flags, Ghost(f));
            assert(w@.grid =~= with_visibility(g, self.player()));
            return w;
        }
        let p = player.unwrap();
        // Main pass: lines of sight.
        let ghost f1 = |c: Coord| ray_visible(g, p, c);
        let flags = self.ray_flags(&tiles, p);
        let mut w1 = self.copy();
        w1.apply_visibility(&tiles, &flags, Ghost(f1));
        assert(w1@.grid =~= relabeled(g, |x: Coord| ray_visible(g, p, x)));
        // Edge pass, over the result of the main pass.
        let ghost f2 = |c: Coord| edge_visible(g, p, c);
        let tiles1 = w1.tiles();
        let flags = w1.edge_flags(Ghost(g), &tiles1, p);
        let mut w2 = w1.copy();
        w2.apply_visibility(&tiles1, &flags, Ghost(f2));
        assert(w2@.grid =~= relabeled(g, |x: Coord| edge_visible(g, p, x)));
        // Corner pass, over the result of the edge pass.
        let ghost f3 = |c: Coord| corner_visible(g, p, c);
        let tiles2 = w2.tiles();
        let flags = w2.corner_flags(Ghost(g), &tiles2, p);
        let mut w3 = w2.copy();
        w3.apply_visibility(&tiles2, &flags, Ghost(f3));
        assert(w3@.grid =~= with_visibility(g, self.player()));
        w3
    }
}

} // verus!
