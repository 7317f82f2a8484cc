//! Procedural generation of levels: a grid of rooms joined by corridors.

use vstd::prelude::*;
use rand::Rng;
use rand::seq::SliceRandom;
use crate::coords::{Coord, in_bounds};
use crate::obj::{Obj, Tile};
use crate::world::{LogicalWorld, obj_at};

verus! {

/// Relies on rand's `Rng::gen_range` over an inclusive range, with the
/// thread-local generator: a value within the range, which must not be empty.
#[verifier::external_body]
fn randint(inf: i32, sup_included: i32) -> (r: i32)
    requires
        inf <= sup_included,
    ensures
        inf <= r <= sup_included,
{
    rand::thread_rng().gen_range(inf..=sup_included)
}

/// Relies on rand's `SliceRandom::choose_multiple`: `amount` elements of the
/// list (all of them if it is shorter), at distinct positions, in random order.
#[verifier::external_body]
fn choose_multiple(coords: &Vec<Coord>, amount: usize) -> (r: Vec<Coord>)
    ensures
        r@.len() == if amount < coords@.len() {
            amount as int
        } else {
            coords@.len() as int
        },
        forall|i: int| 0 <= i < r@.len() ==> coords@.contains(#[trigger] r@[i]),
{
    coords.choose_multiple(&mut rand::thread_rng(), amount).copied().collect()
}

/// The tiles `(x0 + i, y)` for `0 <= i < w`.
pub open spec fn row(x0: i32, w: int, y: i32) -> Seq<Coord> {
    Seq::new(if w > 0 {
        w as nat
    } else {
        0
    }, |i: int| Coord { x: (x0 + i) as i32, y })
}

/// The first `rows` rows of the rectangle at `top_left` of size `dimensions`,
/// row by row from the top, each from left to right.
pub open spec fn rect_rows(top_left: Coord, dimensions: Coord, rows: int) -> Seq<Coord>
    decreases rows,
{
    if rows <= 0 {
        Seq::empty()
    } else {
        rect_rows(top_left, dimensions, rows - 1) + row(
            top_left.x,
            dimensions.x as int,
            (top_left.y + rows - 1) as i32,
        )
    }
}

pub open spec fn in_rect(top_left: Coord, dimensions: Coord, c: Coord) -> bool {
    top_left.x <= c.x < top_left.x + dimensions.x && top_left.y <= c.y < top_left.y + dimensions.y
}

pub proof fn lemma_rect_rows(top_left: Coord, dimensions: Coord, rows: int)
    requires
        0 <= rows <= dimensions.y,
        top_left.x + dimensions.x <= i32::MAX,
        top_left.y + dimensions.y <= i32::MAX,
    ensures
        forall|i: int|
            0 <= i < rect_rows(top_left, dimensions, rows).len() ==> in_rect(
                top_left,
                dimensions,
                #[trigger] rect_rows(top_left, dimensions, rows)[i],
            ),
    decreases rows,
{
    if rows > 0 {
        lemma_rect_rows(top_left, dimensions, rows - 1);
        let prev = rect_rows(top_left, dimensions, rows - 1);
        let last = row(top_left.x, dimensions.x as int, (top_left.y + rows - 1) as i32);
        assert forall|i: int| 0 <= i < (prev + last).len() implies in_rect(
            top_left,
            dimensions,
            #[trigger] (prev + last)[i],
        ) by {
            if i < prev.len() {
                assert((prev + last)[i] == prev[i]);
            } else {
                assert((prev + last)[i] == last[i - prev.len()]);
            }
        }
    }
}

/// Every tile of the rectangle at `top_left` of size `dimensions`.
pub fn filled_rect(top_left: Coord, dimensions: Coord) -> (r: Vec<Coord>)
    requires
        i32::MIN <= top_left.x + dimensions.x <= i32::MAX,
        i32::MIN <= top_left.y + dimensions.y <= i32::MAX,
    ensures
        r@ == rect_rows(top_left, dimensions, dimensions.y as int),
{
    let mut vec: Vec<Coord> = Vec::new();
    let y_end = top_left.y + dimensions.y;
    let x_end = top_left.x + dimensions.x;
    let mut y = top_left.y;
    while y < y_end
        invariant
            y_end == top_left.y + dimensions.y,
            x_end == top_left.x + dimensions.x,
            top_left.y <= y,
            y <= y_end || y == top_left.y,
            vec@ == rect_rows(top_left, dimensions, y - top_left.y),
        decreases y_end - y,
    {
        let mut x = top_left.x;
        while x < x_end
            invariant
                x_end == top_left.x + dimensions.x,
                top_left.y <= y < y_end,
                top_left.x <= x,
                x <= x_end || x == top_left.x,
                vec@ == rect_rows(top_left, dimensions, y - top_left.y) + row(
                    top_left.x,
                    x - top_left.x,
                    y,
                ),
            decreases x_end - x,
        {
            vec.push(Coord::new(x, y));
            x = x + 1;
            assert(vec@ =~= rect_rows(top_left, dimensions, y - top_left.y) + row(
                top_left.x,
                x - top_left.x,
                y,
            ));
        }
        assert(row(top_left.x, x - top_left.x, y) =~= row(top_left.x, dimensions.x as int, y));
        y = y + 1;
        assert(rect_rows(top_left, dimensions, y - top_left.y) == rect_rows(
            top_left,
            dimensions,
            y - 1 - top_left.y,
        ) + row(top_left.x, dimensions.x as int, (top_left.y + (y - top_left.y) - 1) as i32));
    }
    assert(vec@ == rect_rows(top_left, dimensions, dimensions.y as int));
    vec
}

/// Coordinates well inside the bounds, where generation works.
pub open spec fn small(c: Coord) -> bool {
    -10_000 <= c.x <= 10_000 && -10_000 <= c.y <= 10_000
}

/// A rectangle of at most 100 × 100 tiles, well inside the bounds.
pub open spec fn small_rect(top_left: Coord, dimensions: Coord) -> bool {
    small(top_left) && 0 <= dimensions.x <= 100 && 0 <= dimensions.y <= 100
}

proof fn lemma_small_rect(top_left: Coord, dimensions: Coord)
    requires
        -20_000 <= top_left.x <= 20_000 && -20_000 <= top_left.y <= 20_000,
        0 <= dimensions.x <= 100 && 0 <= dimensions.y <= 100,
    ensures
        forall|i: int|
            0 <= i < rect_rows(top_left, dimensions, dimensions.y as int).len() ==> in_bounds(
                #[trigger] rect_rows(top_left, dimensions, dimensions.y as int)[i],
            ),
{
    lemma_rect_rows(top_left, dimensions, dimensions.y as int);
    assert forall|i: int|
        0 <= i < rect_rows(top_left, dimensions, dimensions.y as int).len() implies in_bounds(
        #[trigger] rect_rows(top_left, dimensions, dimensions.y as int)[i],
    ) by {
        assert(in_rect(top_left, dimensions, rect_rows(top_left, dimensions, dimensions.y as int)[i]));
    }
}

/// The rectangle without its border.
fn filled_inner_rect(top_left: Coord, dimensions: Coord) -> (r: Vec<Coord>)
    requires
        small_rect(top_left, dimensions),
        dimensions.x >= 2,
        dimensions.y >= 2,
    ensures
        r@ == rect_rows(
            Coord { x: (top_left.x + 1) as i32, y: (top_left.y + 1) as i32 },
            Coord { x: (dimensions.x - 2) as i32, y: (dimensions.y - 2) as i32 },
            dimensions.y - 2,
        ),
        forall|i: int| 0 <= i < r@.len() ==> in_bounds(#[trigger] r@[i]),
        forall|i: int|
            0 <= i < r@.len() ==> in_rect(
                Coord { x: (top_left.x + 1) as i32, y: (top_left.y + 1) as i32 },
                Coord { x: (dimensions.x - 2) as i32, y: (dimensions.y - 2) as i32 },
                #[trigger] r@[i],
            ),
{
    let inner_top_left = Coord::new(top_left.x + 1, top_left.y + 1);
    let inner_dimensions = Coord::new(dimensions.x - 2, dimensions.y - 2);
    proof {
        lemma_small_rect(inner_top_left, inner_dimensions);
        lemma_rect_rows(inner_top_left, inner_dimensions, inner_dimensions.y as int);
    }
    filled_rect(inner_top_left, inner_dimensions)
}

/// `s` without the elements of `inner`, in order.
pub open spec fn without(s: Seq<Coord>, inner: Seq<Coord>) -> Seq<Coord>
    decreases s.len(),
{
    if s.len() == 0 {
        s
    } else if inner.contains(s.last()) {
        without(s.drop_last(), inner)
    } else {
        without(s.drop_last(), inner).push(s.last())
    }
}

proof fn lemma_without_subset(s: Seq<Coord>, inner: Seq<Coord>)
    ensures
        forall|i: int| 0 <= i < without(s, inner).len() ==> s.contains(#[trigger] without(s, inner)[i]),
    decreases s.len(),
{
    if s.len() > 0 {
        lemma_without_subset(s.drop_last(), inner);
        let w = without(s.drop_last(), inner);
        assert forall|i: int| 0 <= i < w.len() implies s.contains(#[trigger] w[i]) by {
            let j = choose|j: int| 0 <= j < s.drop_last().len() && s.drop_last()[j] == w[i];
            assert(s[j] == w[i]);
        }
        assert(s[s.len() - 1] == s.last());
    }
}

proof fn lemma_without_excludes(s: Seq<Coord>, inner: Seq<Coord>)
    ensures
        forall|i: int| 0 <= i < without(s, inner).len() ==> !inner.contains(#[trigger] without(s, inner)[i]),
    decreases s.len(),
{
    if s.len() > 0 {
        lemma_without_excludes(s.drop_last(), inner);
        let w = without(s.drop_last(), inner);
        if !inner.contains(s.last()) {
            assert forall|i: int| 0 <= i < w.push(s.last()).len() implies !inner.contains(
                #[trigger] w.push(s.last())[i],
            ) by {
                if i < w.len() {
                    assert(w.push(s.last())[i] == w[i]);
                }
            }
        }
    }
}

fn contains_coord(v: &Vec<Coord>, c: Coord) -> (r: bool)
    ensures
        r == v@.contains(c),
{
    let mut i: usize = 0;
    while i < v.len()
        invariant
            i <= v@.len(),
            forall|j: int| 0 <= j < i ==> v@[j] != c,
        decreases v@.len() - i,
    {
        if v[i] == c {
            assert(v@[i as int] == c);
            return true;
        }
        i = i + 1;
    }
    false
}

/// The border of the rectangle.
fn line_rect(top_left: Coord, dimensions: Coord) -> (r: Vec<Coord>)
    requires
        small_rect(top_left, dimensions),
        dimensions.x >= 2,
        dimensions.y >= 2,
    ensures
        r@ == without(
            rect_rows(top_left, dimensions, dimensions.y as int),
            rect_rows(
                Coord { x: (top_left.x + 1) as i32, y: (top_left.y + 1) as i32 },
                Coord { x: (dimensions.x - 2) as i32, y: (dimensions.y - 2) as i32 },
                dimensions.y - 2,
            ),
        ),
        forall|i: int| 0 <= i < r@.len() ==> in_bounds(#[trigger] r@[i]),
        forall|i: int|
            0 <= i < r@.len() ==> !rect_rows(
                Coord { x: (top_left.x + 1) as i32, y: (top_left.y + 1) as i32 },
                Coord { x: (dimensions.x - 2) as i32, y: (dimensions.y - 2) as i32 },
                dimensions.y - 2,
            ).contains(#[trigger] r@[i]),
{
    let outer_vec = filled_rect(top_left, dimensions);
    let inner_vec = filled_inner_rect(top_left, dimensions);
    let mut vec: Vec<Coord> = Vec::new();
    let mut i: usize = 0;
    while i < outer_vec.len()
        invariant
            i <= outer_vec@.len(),
            vec@ == without(outer_vec@.subrange(0, i as int), inner_vec@),
        decreases outer_vec@.len() - i,
    {
        let c = outer_vec[i];
        if !contains_coord(&inner_vec, c) {
            vec.push(c);
        }
        assert(outer_vec@.subrange(0, i + 1).drop_last() =~= outer_vec@.subrange(0, i as int));
        i = i + 1;
    }
    assert(outer_vec@.subrange(0, outer_vec@.len() as int) =~= outer_vec@);
    proof {
        lemma_small_rect(top_left, dimensions);
        lemma_without_subset(outer_vec@, inner_vec@);
        lemma_without_excludes(outer_vec@, inner_vec@);
    }
    vec
}

/// `c` moved `k` tiles along the unit direction `d`.
fn step_by(c: Coord, d: Coord, k: i32) -> (r: Coord)
    requires
        crate::coords::is_dir(d),
        small(c),
        -1000 <= k <= 1000,
    ensures
        r == crate::coords::offset(c, d, k as int),
        r.x == c.x + crate::coords::scale(k as int, d.x),
        r.y == c.y + crate::coords::scale(k as int, d.y),
        -11_000 <= r.x <= 11_000,
        -11_000 <= r.y <= 11_000,
{
    let x = if d.x > 0 {
        c.x + k
    } else if d.x < 0 {
        c.x - k
    } else {
        c.x
    };
    let y = if d.y > 0 {
        c.y + k
    } else if d.y < 0 {
        c.y - k
    } else {
        c.y
    };
    Coord::new(x, y)
}

/// A corridor direction: right or down.
pub open spec fn corridor_dir(d: Coord) -> bool {
    d == (Coord { x: 1i32, y: 0i32 }) || d == (Coord { x: 0i32, y: 1i32 })
}

/// Where the player starts: the centre of the room at the origin of the grid.
pub open spec fn start_coords() -> Coord {
    Coord { x: 4i32, y: 4i32 }
}

/// The player stands, unhurt, where it starts.
pub open spec fn start_bunny(g: Map<Coord, Tile>) -> bool {
    obj_at(g, start_coords()) == Some(Obj::Bunny { hp: 7i32, max_hp: 7i32 })
}

/// Builds a level in a world of its own.
struct Generator {
    lw: LogicalWorld,
}

impl Generator {
    fn new() -> (r: Generator)
        ensures
            r.lw.wf(),
            r.lw@.redo_count == 3,
            r.lw@.max_redo_count == 9,
    {
        Generator { lw: LogicalWorld::new_empty() }
    }

    /// Walls around the rectangle, floor inside, where nothing is yet.
    fn generate_empty_room(&mut self, top_left: Coord, dimensions: Coord)
        requires
            old(self).lw.wf(),
            small_rect(top_left, dimensions),
            dimensions.x >= 2,
            dimensions.y >= 2,
        ensures
            final(self).lw.wf(),
            final(self).lw@.redo_count == old(self).lw@.redo_count,
            final(self).lw@.max_redo_count == old(self).lw@.max_redo_count,
            start_bunny(old(self).lw@.grid) ==> start_bunny(final(self).lw@.grid),
    {
        let walls = line_rect(top_left, dimensions);
        let mut i: usize = 0;
        while i < walls.len()
            invariant
                self.lw.wf(),
                self.lw@.redo_count == old(self).lw@.redo_count,
                self.lw@.max_redo_count == old(self).lw@.max_redo_count,
                forall|j: int| 0 <= j < walls@.len() ==> in_bounds(#[trigger] walls@[j]),
                i <= walls@.len(),
                start_bunny(old(self).lw@.grid) ==> start_bunny(self.lw@.grid),
            decreases walls@.len() - i,
        {
            assert(in_bounds(walls@[i as int]));
            self.lw.place_tile_no_overwrite(walls[i], Tile::obj(Obj::Wall));
            i = i + 1;
        }
        let floors = filled_rect(top_left, dimensions);
        proof {
            lemma_small_rect(top_left, dimensions);
        }
        let mut i: usize = 0;
        while i < floors.len()
            invariant
                self.lw.wf(),
                self.lw@.redo_count == old(self).lw@.redo_count,
                self.lw@.max_redo_count == old(self).lw@.max_redo_count,
                forall|j: int| 0 <= j < floors@.len() ==> in_bounds(#[trigger] floors@[j]),
                i <= floors@.len(),
                start_bunny(old(self).lw@.grid) ==> start_bunny(self.lw@.grid),
            decreases floors@.len() - i,
        {
            assert(in_bounds(floors@[i as int]));
            self.lw.place_tile_no_overwrite(floors[i], Tile::floor());
            i = i + 1;
        }
    }

    /// A corridor of the given length and width from `start` along `direction`,
    /// with walls on both sides; walls already in its way give way to floor.
    fn generate_corridor(&mut self, start: Coord, direction: Coord, length: i32, width: i32)
        requires
            old(self).lw.wf(),
            -9_000 <= start.x <= 9_000 && -9_000 <= start.y <= 9_000,
            corridor_dir(direction),
            0 <= length <= 100,
            0 <= width <= 10,
        ensures
            final(self).lw.wf(),
            final(self).lw@.redo_count == old(self).lw@.redo_count,
            final(self).lw@.max_redo_count == old(self).lw@.max_redo_count,
            start_bunny(old(self).lw@.grid) ==> start_bunny(final(self).lw@.grid),
    {
        // Perpendicular of the direction, and its opposite.
        let perp = Coord::new(-direction.y, direction.x);
        let back = Coord::new(direction.y, -direction.x);
        let mut coords = start;
        let mut step: i32 = 0;
        while step < length
            invariant
                self.lw.wf(),
                self.lw@.redo_count == old(self).lw@.redo_count,
                self.lw@.max_redo_count == old(self).lw@.max_redo_count,
                corridor_dir(direction),
                perp == (Coord { x: (-direction.y) as i32, y: direction.x }),
                back == (Coord { x: direction.y, y: (-direction.x) as i32 }),
                0 <= step <= length <= 100,
                0 <= width <= 10,
                -9_000 <= start.x <= 9_000 && -9_000 <= start.y <= 9_000,
                start_bunny(old(self).lw@.grid) ==> start_bunny(self.lw@.grid),
                coords == crate::coords::offset(start, direction, step as int),
            decreases length - step,
        {
            let one_wall = step_by(coords, perp, 1);
            self.lw.place_tile_no_overwrite(one_wall, Tile::obj(Obj::Wall));
            let other_wall = step_by(one_wall, back, width + 1);
            self.lw.place_tile_no_overwrite(other_wall, Tile::obj(Obj::Wall));
            let mut i: i32 = 1;
            while i <= width
                invariant
                    self.lw.wf(),
                    self.lw@.redo_count == old(self).lw@.redo_count,
                    self.lw@.max_redo_count == old(self).lw@.max_redo_count,
                    crate::coords::is_dir(back),
                    small(one_wall),
                    1 <= i <= width + 1,
                    width <= 10,
                    start_bunny(old(self).lw@.grid) ==> start_bunny(self.lw@.grid),
                decreases width + 1 - i,
            {
                let c = step_by(one_wall, back, i);
                let is_wall = match self.lw.tile(c) {
                    Some(t) => matches!(t.obj, Some(Obj::Wall)),
                    None => false,
                };
                if is_wall {
                    self.lw.place_tile(c, Tile::floor());
                } else {
                    self.lw.place_tile_no_overwrite(c, Tile::floor());
                }
                i = i + 1;
            }
            coords = step_by(coords, direction, 1);
            step = step + 1;
        }
    }
}

/// Sum of the first `n` weights of a weighted table.
pub open spec fn weight_sum(table: Seq<(i32, Option<Obj>)>, n: int) -> int
    decreases n,
{
    if n <= 0 {
        0
    } else {
        weight_sum(table, n - 1) + table[n - 1].0
    }
}

/// Width and height of a room.
pub const ROOM_SIZE: i32 = 9;

/// A room, with the space between rooms, takes this many tiles.
pub const ROOM_PITCH: i32 = 10;

/// Rooms lie on a square grid, this many rooms from the centre in each direction.
pub const GRID_RADIUS: i32 = 3;

pub open spec fn room_in_grid(room: Coord) -> bool {
    -GRID_RADIUS <= room.x <= GRID_RADIUS && -GRID_RADIUS <= room.y <= GRID_RADIUS
}

impl Generator {
    /// The room at `room_grid_coords` of the grid of rooms: the starting room
    /// holds the bunny between a shield and a sword; other rooms are filled at
    /// random, sometimes with a pattern of walls and doors; an exit room gets an
    /// exit somewhere.
    fn generate_grid_room(&mut self, room_grid_coords: Coord, is_exit_room: bool)
        requires
            old(self).lw.wf(),
            room_in_grid(room_grid_coords),
        ensures
            final(self).lw.wf(),
            final(self).lw@.redo_count == old(self).lw@.redo_count,
            final(self).lw@.max_redo_count == old(self).lw@.max_redo_count,
            room_grid_coords == (Coord { x: 0i32, y: 0i32 }) && !is_exit_room ==> start_bunny(
                final(self).lw@.grid,
            ),
            room_grid_coords != (Coord { x: 0i32, y: 0i32 }) && start_bunny(old(self).lw@.grid)
                ==> start_bunny(final(self).lw@.grid),
    {
        let top_left = Coord::new(room_grid_coords.x * ROOM_PITCH, room_grid_coords.y * ROOM_PITCH);
        let dimensions = Coord::new(ROOM_SIZE, ROOM_SIZE);
        let ghost away = room_grid_coords != (Coord { x: 0i32, y: 0i32 });
        self.generate_empty_room(top_left, dimensions);
        let center = Coord::new(top_left.x + ROOM_SIZE / 2, top_left.y + ROOM_SIZE / 2);
        let is_starting_room = room_grid_coords.x == 0 && room_grid_coords.y == 0;
        if is_starting_room {
            self.lw.place_tile(center, Tile::obj(Obj::Bunny { hp: 7, max_hp: 7 }));
            self.lw.place_tile(Coord::new(center.x - 2, center.y), Tile::obj(Obj::Shield));
            self.lw.place_tile(Coord::new(center.x + 2, center.y), Tile::obj(Obj::Sword));
        } else {
            // Weighted table of object spawn.
            let obj_table: [(i32, Option<Obj>); 13] = [
                (500, None),
                (25, Some(Obj::Rock)),
                (5, Some(Obj::Sword)),
                (4, Some(Obj::Shield)),
                (2, Some(Obj::Pickaxe)),
                (3, Some(Obj::VisionGem)),
                (1, Some(Obj::Heart)),
                (2, Some(Obj::RedoHeart)),
                (3, Some(Obj::Key)),
                (3, Some(Obj::Rope)),
                (25, Some(Obj::Slime { hp: 5, move_token: false })),
                (10, Some(Obj::Shroomer { hp: 5, move_token: false })),
                (6, Some(Obj::Shroom { move_token: false })),
            ];
            let mut total_weight: i32 = 0;
            let mut k: usize = 0;
            while k < 13
                invariant
                    k <= 13,
                    forall|j: int| 0 <= j < 13 ==> 1 <= #[trigger] obj_table@[j].0 <= 500,
                    total_weight == weight_sum(obj_table@, k as int),
                    0 <= total_weight <= 500 * k,
                    k > 0 ==> total_weight >= 1,
                decreases 13 - k,
            {
                total_weight = total_weight + obj_table[k].0;
                k = k + 1;
            }
            // Fill the room.
            let inner = filled_inner_rect(top_left, dimensions);
            assert forall|j: int| 0 <= j < inner@.len() implies (away ==> #[trigger] inner@[j]
                != start_coords()) by {
                assert(in_rect(
                    Coord { x: (top_left.x + 1) as i32, y: (top_left.y + 1) as i32 },
                    Coord { x: (dimensions.x - 2) as i32, y: (dimensions.y - 2) as i32 },
                    inner@[j],
                ));
            }
            let mut i: usize = 0;
            while i < inner.len()
                invariant
                    self.lw.wf(),
                    self.lw@.redo_count == old(self).lw@.redo_count,
                    self.lw@.max_redo_count == old(self).lw@.max_redo_count,
                    forall|j: int| 0 <= j < inner@.len() ==> in_bounds(#[trigger] inner@[j]),
                    forall|j: int| 0 <= j < inner@.len() ==> (away ==> #[trigger] inner@[j] != start_coords()),
                    away && start_bunny(old(self).lw@.grid) ==> start_bunny(self.lw@.grid),
                    forall|j: int| 0 <= j < 13 ==> 1 <= #[trigger] obj_table@[j].0 <= 500,
                    forall|j: int| 0 <= j < 13 ==> (#[trigger] obj_table@[j].1 matches Some(o) ==> o.is_valid()),
                    total_weight == weight_sum(obj_table@, 13),
                    1 <= total_weight <= 6500,
                    i <= inner@.len(),
                decreases inner@.len() - i,
            {
                let initial_value = randint(0, total_weight - 1);
                let mut random_value = initial_value;
                let mut chosen: Option<Option<Obj>> = None;
                let mut k: usize = 0;
                while k < 13
                    invariant_except_break
                        chosen is None,
                        random_value == initial_value - weight_sum(obj_table@, k as int),
                        random_value >= 0,
                        weight_sum(obj_table@, k as int) >= 0,
                    invariant
                        forall|j: int| 0 <= j < 13 ==> 1 <= #[trigger] obj_table@[j].0 <= 500,
                        total_weight == weight_sum(obj_table@, 13),
                        0 <= initial_value < total_weight,
                        k <= 13,
                    ensures
                        chosen matches Some(o) && exists|j: int| 0 <= j < 13 && o == #[trigger] obj_table@[j].1,
                    decreases 13 - k,
                {
                    let (weight, obj) = obj_table[k];
                    random_value = random_value - weight;
                    if random_value < 0 {
                        assert(obj == obj_table@[k as int].1);
                        chosen = Some(obj);
                        break;
                    }
                    k = k + 1;
                    assert(weight_sum(obj_table@, k as int) == weight_sum(obj_table@, k - 1) + obj_table@[k - 1].0);
                }
                let obj = match chosen {
                    Some(obj) => obj,
                    None => {
                        // The value runs out before the end of the table, by its range.
                        assert(false);
                        None
                    },
                };
                assert(in_bounds(inner@[i as int]));
                if let Some(obj) = obj {
                    self.lw.place_tile(inner[i], Tile::obj(obj));
                }
                i = i + 1;
            }
            if randint(0, 3) == 0 {
                let v = randint(2, 4);
                let mut i: usize = 0;
                while i < inner.len()
                    invariant
                        self.lw.wf(),
                        self.lw@.redo_count == old(self).lw@.redo_count,
                        self.lw@.max_redo_count == old(self).lw@.max_redo_count,
                        forall|j: int| 0 <= j < inner@.len() ==> in_bounds(#[trigger] inner@[j]),
                        forall|j: int| 0 <= j < inner@.len() ==> (away ==> #[trigger] inner@[j] != start_coords()),
                        away && start_bunny(old(self).lw@.grid) ==> start_bunny(self.lw@.grid),
                        2 <= v <= 4,
                        i <= inner@.len(),
                    decreases inner@.len() - i,
                {
                    let coords = inner[i];
                    assert(in_bounds(inner@[i as int]));
                    let sum = coords.x + coords.y;
                    if (sum % v == 0 && coords.x % 2 == 0 && randint(0, 6 - 1) != 0) || (sum % 2 != v
                        && randint(0, 10 - 1) == 0) {
                        let wall = if randint(0, 30) == 0 {
                            Obj::Door
                        } else {
                            Obj::Wall
                        };
                        self.lw.place_tile(coords, Tile::obj(wall));
                    }
                    i = i + 1;
                }
            }
        }
        if is_exit_room {
            assert(-30 <= top_left.x <= 30 && -30 <= top_left.y <= 30);
            let x = top_left.x + randint(0, dimensions.x - 1);
            let y = top_left.y + randint(0, dimensions.y - 1);
            self.lw.place_tile(Coord::new(x, y), Tile::obj(Obj::Exit));
        }
    }

    /// Corridors, maybe none, from the room at `room_grid_coords` to the next
    /// room along `direction`; a lone corridor may get a door half-way.
    fn generate_grid_corridor(&mut self, room_grid_coords: Coord, direction: Coord)
        requires
            old(self).lw.wf(),
            room_in_grid(room_grid_coords),
            corridor_dir(direction),
        ensures
            final(self).lw.wf(),
            final(self).lw@.redo_count == old(self).lw@.redo_count,
            final(self).lw@.max_redo_count == old(self).lw@.max_redo_count,
            start_bunny(old(self).lw@.grid) ==> start_bunny(final(self).lw@.grid),
    {
        let top_left = Coord::new(room_grid_coords.x * ROOM_PITCH, room_grid_coords.y * ROOM_PITCH);
        let center = Coord::new(top_left.x + ROOM_SIZE / 2, top_left.y + ROOM_SIZE / 2);
        let number_of_corridors = if randint(0, 4) == 0 {
            0
        } else if randint(0, 3) == 0 {
            randint(2, 6)
        } else {
            1
        };
        let perp = Coord::new(-direction.y, direction.x);
        let mut n: i32 = 0;
        while n < number_of_corridors
            invariant
                self.lw.wf(),
                self.lw@.redo_count == old(self).lw@.redo_count,
                self.lw@.max_redo_count == old(self).lw@.max_redo_count,
                corridor_dir(direction),
                perp == (Coord { x: (-direction.y) as i32, y: direction.x }),
                small(center),
                -100 <= center.x <= 100 && -100 <= center.y <= 100,
                center.x == room_grid_coords.x * ROOM_PITCH + 4,
                center.y == room_grid_coords.y * ROOM_PITCH + 4,
                0 <= n <= number_of_corridors <= 6,
                start_bunny(old(self).lw@.grid) ==> start_bunny(self.lw@.grid),
            decreases number_of_corridors - n,
        {
            let start = step_by(center, perp, randint(-ROOM_SIZE / 2, ROOM_SIZE / 2));
            self.generate_corridor(start, direction, ROOM_PITCH, 1);
            if number_of_corridors == 1 && randint(0, 3) == 0 {
                let coords = step_by(start, direction, ROOM_PITCH / 2);
                self.lw.place_tile(coords, Tile::obj(Obj::Door));
            }
            n = n + 1;
        }
    }

    /// A grid of rooms, three exits among the rooms of its border, and the
    /// corridors between neighbouring rooms.
    fn generate_level(&mut self)
        requires
            old(self).lw.wf(),
        ensures
            final(self).lw.wf(),
            final(self).lw@.redo_count == old(self).lw@.redo_count,
            final(self).lw@.max_redo_count == old(self).lw@.max_redo_count,
            start_bunny(final(self).lw@.grid),
    {
        let grid_w = GRID_RADIUS * 2 + 1;
        let border = line_rect(Coord::new(-GRID_RADIUS, -GRID_RADIUS), Coord::new(grid_w, grid_w));
        let exit_rooms = choose_multiple(&border, 3);
        proof {
            // The room at the origin is inside the border, so it is no exit room.
            let inner_tl = Coord { x: -2i32, y: -2i32 };
            let inner_dims = Coord { x: 5i32, y: 5i32 };
            let origin = Coord { x: 0i32, y: 0i32 };
            assert(rect_rows(inner_tl, inner_dims, 0).len() == 0);
            assert(rect_rows(inner_tl, inner_dims, 1).len() == 5);
            assert(rect_rows(inner_tl, inner_dims, 2).len() == 10);
            assert(rect_rows(inner_tl, inner_dims, 3)[12] == origin);
            assert(rect_rows(inner_tl, inner_dims, 4)[12] == origin);
            assert(rect_rows(inner_tl, inner_dims, 5)[12] == origin);
            assert(rect_rows(inner_tl, inner_dims, 5).contains(origin));
            assert forall|i: int| 0 <= i < exit_rooms@.len() implies #[trigger] exit_rooms@[i] != origin by {
                assert(border@.contains(exit_rooms@[i]));
            }
        }
        let mut grid_y = -GRID_RADIUS;
        while grid_y <= GRID_RADIUS
            invariant
                self.lw.wf(),
                self.lw@.redo_count == old(self).lw@.redo_count,
                self.lw@.max_redo_count == old(self).lw@.max_redo_count,
                -GRID_RADIUS <= grid_y <= GRID_RADIUS + 1,
                forall|i: int| 0 <= i < exit_rooms@.len() ==> #[trigger] exit_rooms@[i] != (Coord { x: 0i32, y: 0i32 }),
                grid_y > 0 ==> start_bunny(self.lw@.grid),
            decreases GRID_RADIUS + 1 - grid_y,
        {
            let mut grid_x = -GRID_RADIUS;
            while grid_x <= GRID_RADIUS
                invariant
                    self.lw.wf(),
                    self.lw@.redo_count == old(self).lw@.redo_count,
                    self.lw@.max_redo_count == old(self).lw@.max_redo_count,
                    -GRID_RADIUS <= grid_y <= GRID_RADIUS,
                    -GRID_RADIUS <= grid_x <= GRID_RADIUS + 1,
                    forall|i: int| 0 <= i < exit_rooms@.len() ==> #[trigger] exit_rooms@[i] != (Coord { x: 0i32, y: 0i32 }),
                    grid_y > 0 || (grid_y == 0 && grid_x > 0) ==> start_bunny(self.lw@.grid),
                decreases GRID_RADIUS + 1 - grid_x,
            {
                let room_grid_coords = Coord::new(grid_x, grid_y);
                let is_exit_room = contains_coord(&exit_rooms, room_grid_coords);
                self.generate_grid_room(room_grid_coords, is_exit_room);
                grid_x = grid_x + 1;
            }
            grid_y = grid_y + 1;
        }
        let mut grid_y = -GRID_RADIUS;
        while grid_y <= GRID_RADIUS
            invariant
                self.lw.wf(),
                self.lw@.redo_count == old(self).lw@.redo_count,
                self.lw@.max_redo_count == old(self).lw@.max_redo_count,
                -GRID_RADIUS <= grid_y <= GRID_RADIUS + 1,
                start_bunny(self.lw@.grid),
            decreases GRID_RADIUS + 1 - grid_y,
        {
            let mut grid_x = -GRID_RADIUS;
            while grid_x <= GRID_RADIUS
                invariant
                    self.lw.wf(),
                    self.lw@.redo_count == old(self).lw@.redo_count,
                    self.lw@.max_redo_count == old(self).lw@.max_redo_count,
                    -GRID_RADIUS <= grid_y <= GRID_RADIUS,
                    -GRID_RADIUS <= grid_x <= GRID_RADIUS + 1,
                    start_bunny(self.lw@.grid),
                decreases GRID_RADIUS + 1 - grid_x,
            {
                let room_grid_coords = Coord::new(grid_x, grid_y);
                if grid_x < GRID_RADIUS {
                    self.generate_grid_corridor(room_grid_coords, Coord::new(1, 0));
                }
                if grid_y < GRID_RADIUS {
                    self.generate_grid_corridor(room_grid_coords, Coord::new(0, 1));
                }
                grid_x = grid_x + 1;
            }
            grid_y = grid_y + 1;
        }
    }
}

/// A new level: well-formed, with the initial redo count and cap, and the
/// player, unhurt, at the centre of the starting room.
pub fn generate_level() -> (r: LogicalWorld)
    ensures
        r.wf(),
        r@.redo_count == 3,
        r@.max_redo_count == 9,
        start_bunny(r@.grid),
{
    let mut generator = Generator::new();
    generator.generate_level();
    generator.lw
}

} // verus!
