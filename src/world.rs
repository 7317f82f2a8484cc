//! The world: a sparse grid of tiles together with the redo currency.

use vstd::prelude::*;
use std::collections::HashMap;
use crate::coords::{COORD_LIMIT, Coord, in_bounds};
use crate::obj::{Obj, Tile};

verus! {

broadcast use vstd::std_specs::hash::group_hash_axioms;

/// The key of in-bounds coordinates in the index of a world: both coordinates
/// shifted to be non-negative, packed into one number.
pub open spec fn coord_key(c: Coord) -> u64 {
    ((c.x + COORD_LIMIT) * 0x1_0000_0000 + (c.y + COORD_LIMIT)) as u64
}

proof fn lemma_coord_key_injective(a: Coord, b: Coord)
    requires
        in_bounds(a),
        in_bounds(b),
        coord_key(a) == coord_key(b),
    ensures
        a == b,
{
    let xa = a.x + COORD_LIMIT;
    let xb = b.x + COORD_LIMIT;
    let ya = a.y + COORD_LIMIT;
    let yb = b.y + COORD_LIMIT;
    assert(xa * 0x1_0000_0000 + ya == xb * 0x1_0000_0000 + yb);
    assert(xa == xb) by (nonlinear_arith)
        requires
            xa * 0x1_0000_0000 + ya == xb * 0x1_0000_0000 + yb,
            0 <= ya < 0x1_0000_0000,
            0 <= yb < 0x1_0000_0000,
    ;
}

proof fn lemma_index_update(s: Seq<(Coord, Tile)>, index: Map<u64, usize>, i: int, t: Tile)
    requires
        index_matches(s, index),
        0 <= i < s.len(),
    ensures
        index_matches(s.update(i, (s[i].0, t)), index),
{
    let s2 = s.update(i, (s[i].0, t));
    assert forall|j: int| 0 <= j < s2.len() implies in_bounds(#[trigger] s2[j].0) by {
        assert(in_bounds(s[j].0));
    }
    assert forall|j: int| 0 <= j < s2.len() implies index.contains_key(coord_key(#[trigger] s2[j].0))
        && index[coord_key(s2[j].0)] == j by {
        assert(in_bounds(s[j].0));
    }
}

proof fn lemma_index_push(s: Seq<(Coord, Tile)>, index: Map<u64, usize>, c: Coord, t: Tile)
    requires
        index_matches(s, index),
        in_bounds(c),
        forall|i: int| 0 <= i < s.len() ==> s[i].0 != c,
        s.len() <= usize::MAX,
    ensures
        index_matches(s.push((c, t)), index.insert(coord_key(c), s.len() as usize)),
{
    let s2 = s.push((c, t));
    let index2 = index.insert(coord_key(c), s.len() as usize);
    assert forall|j: int| 0 <= j < s2.len() implies in_bounds(#[trigger] s2[j].0) by {
        if j < s.len() {
            assert(in_bounds(s[j].0));
        }
    }
    assert forall|j: int| 0 <= j < s2.len() implies index2.contains_key(coord_key(#[trigger] s2[j].0))
        && index2[coord_key(s2[j].0)] == j by {
        if j < s.len() {
            assert(in_bounds(s[j].0));
            assert(s[j].0 != c);
            if coord_key(s[j].0) == coord_key(c) {
                lemma_coord_key_injective(s[j].0, c);
            }
        }
    }
    assert forall|k: u64| #[trigger] index2.contains_key(k) implies index2[k] < s2.len() && coord_key(
        s2[index2[k] as int].0,
    ) == k by {
        if k != coord_key(c) {
            assert(index.contains_key(k));
        }
    }
}

fn key_of(c: Coord) -> (r: u64)
    requires
        in_bounds(c),
    ensures
        r == coord_key(c),
{
    let x = (c.x as i64 + COORD_LIMIT as i64) as u64;
    let y = (c.y as i64 + COORD_LIMIT as i64) as u64;
    x * 0x1_0000_0000 + y
}

/// The index maps the key of each entry's coordinates to the entry's position.
pub closed spec fn index_matches(s: Seq<(Coord, Tile)>, index: Map<u64, usize>) -> bool {
    &&& forall|i: int| 0 <= i < s.len() ==> in_bounds(#[trigger] s[i].0)
    &&& forall|i: int|
        0 <= i < s.len() ==> index.contains_key(coord_key(#[trigger] s[i].0)) && index[coord_key(
            s[i].0,
        )] == i
    &&& forall|k: u64| #[trigger]
        index.contains_key(k) ==> index[k] < s.len() && coord_key(s[index[k] as int].0) == k
}

/// What a world is: its tiles by coordinates, and the redo currency.
pub struct WorldView {
    pub grid: Map<Coord, Tile>,
    pub redo_count: i32,
    pub max_redo_count: i32,
}

/// The object on the tile at `c`, if there is such a tile and it holds one.
pub open spec fn obj_at(g: Map<Coord, Tile>, c: Coord) -> Option<Obj> {
    if g.contains_key(c) {
        g[c].obj
    } else {
        None
    }
}

/// The grid with the object of the (existing) tile at `c` replaced by `o`.
pub open spec fn with_obj(g: Map<Coord, Tile>, c: Coord, o: Option<Obj>) -> Map<Coord, Tile> {
    g.insert(c, Tile { obj: o, ..g[c] })
}

/// Does the (possible) object block the sight?
pub open spec fn blocks_sight(o: Option<Obj>) -> bool {
    o matches Some(x) && x.spec_blocks_vision()
}

pub open spec fn is_bunny(o: Option<Obj>) -> bool {
    o matches Some(Obj::Bunny { .. })
}

/// Tiles within bounds holding valid objects, and a non-negative redo cap.
pub open spec fn view_ok(v: WorldView) -> bool {
    &&& forall|c: Coord| #[trigger] v.grid.contains_key(c) ==> in_bounds(c) && v.grid[c].is_valid()
    &&& 0 <= v.max_redo_count
}

/// The map that a list of entries with distinct coordinates stands for.
pub closed spec fn grid_of(s: Seq<(Coord, Tile)>) -> Map<Coord, Tile> {
    Map::new(
        |c: Coord| exists|i: int| 0 <= i < s.len() && s[i].0 == c,
        |c: Coord| s[choose|i: int| 0 <= i < s.len() && s[i].0 == c].1,
    )
}

pub closed spec fn keys_distinct(s: Seq<(Coord, Tile)>) -> bool {
    forall|i: int, j: int| 0 <= i < s.len() && 0 <= j < s.len() && s[i].0 == s[j].0 ==> i == j
}

proof fn lemma_grid_of_index(s: Seq<(Coord, Tile)>, i: int)
    requires
        keys_distinct(s),
        0 <= i < s.len(),
    ensures
        grid_of(s).contains_key(s[i].0),
        grid_of(s)[s[i].0] == s[i].1,
{
    assert(grid_of(s).contains_key(s[i].0));
    let j = choose|j: int| 0 <= j < s.len() && s[j].0 == s[i].0;
    assert(s[j].0 == s[i].0);
}

proof fn lemma_grid_of_update(s: Seq<(Coord, Tile)>, i: int, t: Tile)
    requires
        keys_distinct(s),
        0 <= i < s.len(),
    ensures
        keys_distinct(s.update(i, (s[i].0, t))),
        grid_of(s.update(i, (s[i].0, t))) == grid_of(s).insert(s[i].0, t),
{
    let s2 = s.update(i, (s[i].0, t));
    assert forall|c: Coord| #[trigger] grid_of(s2).contains_key(c) == grid_of(s).insert(
        s[i].0,
        t,
    ).contains_key(c) by {
        if grid_of(s2).contains_key(c) {
            let j = choose|j: int| 0 <= j < s2.len() && s2[j].0 == c;
            assert(s[j].0 == c);
        }
        if grid_of(s).contains_key(c) {
            let j = choose|j: int| 0 <= j < s.len() && s[j].0 == c;
            assert(s2[j].0 == c);
        }
        if c == s[i].0 {
            assert(s2[i].0 == c);
        }
    }
    assert forall|c: Coord| #[trigger] grid_of(s2).contains_key(c) implies grid_of(s2)[c]
        == grid_of(s).insert(s[i].0, t)[c] by {
        let j = choose|j: int| 0 <= j < s2.len() && s2[j].0 == c;
        lemma_grid_of_index(s2, j);
        if j != i {
            lemma_grid_of_index(s, j);
        }
    }
    assert(grid_of(s2) =~= grid_of(s).insert(s[i].0, t));
}

proof fn lemma_grid_of_push(s: Seq<(Coord, Tile)>, c: Coord, t: Tile)
    requires
        keys_distinct(s),
        !grid_of(s).contains_key(c),
    ensures
        keys_distinct(s.push((c, t))),
        grid_of(s.push((c, t))) == grid_of(s).insert(c, t),
{
    let s2 = s.push((c, t));
    assert forall|i: int| 0 <= i < s.len() implies s[i].0 != c by {
        if s[i].0 == c {
            assert(grid_of(s).contains_key(c));
        }
    }
    assert(keys_distinct(s2));
    assert forall|k: Coord| #[trigger] grid_of(s2).contains_key(k) == grid_of(s).insert(
        c,
        t,
    ).contains_key(k) by {
        if grid_of(s2).contains_key(k) {
            let j = choose|j: int| 0 <= j < s2.len() && s2[j].0 == k;
            if j < s.len() {
                assert(s[j].0 == k);
            }
        }
        if grid_of(s).contains_key(k) {
            let j = choose|j: int| 0 <= j < s.len() && s[j].0 == k;
            assert(s2[j].0 == k);
        }
        if k == c {
            assert(s2[s.len() as int].0 == k);
        }
    }
    assert forall|k: Coord| #[trigger] grid_of(s2).contains_key(k) implies grid_of(s2)[k]
        == grid_of(s).insert(c, t)[k] by {
        let j = choose|j: int| 0 <= j < s2.len() && s2[j].0 == k;
        lemma_grid_of_index(s2, j);
        if j < s.len() {
            lemma_grid_of_index(s, j);
        }
    }
    assert(grid_of(s2) =~= grid_of(s).insert(c, t));
}

/// The coordinates of the first bunny from entry `i` on.
pub closed spec fn first_bunny_from(s: Seq<(Coord, Tile)>, i: nat) -> Option<Coord>
    decreases s.len() - i,
{
    if i >= s.len() {
        None
    } else if is_bunny(s[i as int].1.obj) {
        Some(s[i as int].0)
    } else {
        first_bunny_from(s, i + 1)
    }
}

proof fn lemma_first_bunny_from(s: Seq<(Coord, Tile)>, i: nat)
    requires
        keys_distinct(s),
    ensures
        first_bunny_from(s, i) matches Some(c) ==> grid_of(s).contains_key(c) && is_bunny(
            grid_of(s)[c].obj,
        ),
        first_bunny_from(s, i) is None ==> forall|j: int|
            i <= j < s.len() ==> !is_bunny(#[trigger] s[j].1.obj),
    decreases s.len() - i,
{
    if i < s.len() {
        lemma_first_bunny_from(s, i + 1);
        if is_bunny(s[i as int].1.obj) {
            lemma_grid_of_index(s, i as int);
        }
    }
}

/// A logical state of the world, with no regard to rendering or animation.
#[derive(Clone)]
pub struct LogicalWorld {
    grid: Vec<(Coord, Tile)>,
    /// Position in `grid` of the entry of each coordinates, by their key.
    index: HashMap<u64, usize>,
    pub redo_count: i32,
    pub max_redo_count: i32,
}

impl View for LogicalWorld {
    type V = WorldView;

    closed spec fn view(&self) -> WorldView {
        WorldView {
            grid: grid_of(self.grid@),
            redo_count: self.redo_count,
            max_redo_count: self.max_redo_count,
        }
    }
}

impl LogicalWorld {
    /// The tiles in storage order, each coordinate once.
    pub closed spec fn entries(&self) -> Seq<(Coord, Tile)> {
        self.grid@
    }

    pub closed spec fn entries_ok(&self) -> bool {
        keys_distinct(self.grid@) && index_matches(self.grid@, self.index@)
    }

    pub open spec fn wf(&self) -> bool {
        self.entries_ok() && view_ok(self@)
    }

    /// The entries list every tile of the grid exactly once.
    pub proof fn lemma_entries(&self)
        requires
            self.entries_ok(),
        ensures
            forall|i: int|
                0 <= i < self.entries().len() ==> #[trigger] self@.grid.contains_key(
                    self.entries()[i].0,
                ) && self@.grid[self.entries()[i].0] == self.entries()[i].1,
            forall|c: Coord|
                #[trigger] self@.grid.contains_key(c) ==> exists|i: int|
                    0 <= i < self.entries().len() && self.entries()[i].0 == c,
            forall|i: int, j: int|
                0 <= i < self.entries().len() && 0 <= j < self.entries().len()
                    && self.entries()[i].0 == self.entries()[j].0 ==> i == j,
    {
        assert forall|i: int| 0 <= i < self.entries().len() implies #[trigger] self@.grid.contains_key(
            self.entries()[i].0,
        ) && self@.grid[self.entries()[i].0] == self.entries()[i].1 by {
            lemma_grid_of_index(self.grid@, i);
        }
        assert forall|c: Coord| #[trigger] self@.grid.contains_key(c) implies exists|i: int|
            0 <= i < self.entries().len() && self.entries()[i].0 == c by {
            assert(grid_of(self.grid@).contains_key(c));
            assert(grid_of(self.grid@).dom().contains(c));
            let i = choose|i: int| 0 <= i < self.grid@.len() && self.grid@[i].0 == c;
            assert(self.entries()[i].0 == c);
        }
    }

    /// Where the player is taken to stand: the first bunny in storage order,
    /// which is the bunny when there is exactly one.
    pub closed spec fn player(&self) -> Option<Coord> {
        first_bunny_from(self.grid@, 0)
    }

    pub proof fn lemma_player(&self)
        requires
            self.entries_ok(),
        ensures
            self.player() matches Some(c) ==> is_bunny(obj_at(self@.grid, c)),
            self.player() is None <==> forall|c: Coord| !is_bunny(#[trigger] obj_at(self@.grid, c)),
            forall|c: Coord|
                is_bunny(#[trigger] obj_at(self@.grid, c)) && (forall|c2: Coord|
                    is_bunny(#[trigger] obj_at(self@.grid, c2)) ==> c2 == c) ==> self.player()
                    == Some(c),
    {
        lemma_first_bunny_from(self.grid@, 0);
        self.lemma_entries();
        if self.player() is None {
            assert forall|c: Coord| !is_bunny(#[trigger] obj_at(self@.grid, c)) by {
                if self@.grid.contains_key(c) {
                    let j = choose|j: int| 0 <= j < self.grid@.len() && self.grid@[j].0 == c;
                    assert(self@.grid.contains_key(self.grid@[j].0));
                }
            }
        }
    }

    pub fn new_empty() -> (r: LogicalWorld)
        ensures
            r.wf(),
            r@.grid == Map::<Coord, Tile>::empty(),
            r@.redo_count == 3,
            r@.max_redo_count == 9,
    {
        let r = LogicalWorld { grid: Vec::new(), index: HashMap::new(), redo_count: 3, max_redo_count: 9 };
        assert(grid_of(r.grid@) =~= Map::<Coord, Tile>::empty());
        r
    }

    /// A copy of the world, which later changes to either leave the other alone.
    pub fn copy(&self) -> (r: LogicalWorld)
        ensures
            r@ == self@,
            r.entries() == self.entries(),
            r.entries_ok() == self.entries_ok(),
    {
        let mut grid: Vec<(Coord, Tile)> = Vec::new();
        let mut i: usize = 0;
        while i < self.grid.len()
            invariant
                i <= self.grid@.len(),
                grid@ == self.grid@.subrange(0, i as int),
            decreases self.grid@.len() - i,
        {
            grid.push(self.grid[i]);
            i = i + 1;
            assert(grid@ =~= self.grid@.subrange(0, i as int));
        }
        assert(grid@ =~= self.grid@);
        LogicalWorld {
            grid,
            index: self.index.clone(),
            redo_count: self.redo_count,
            max_redo_count: self.max_redo_count,
        }
    }

    fn index_of(&self, coords: Coord) -> (r: Option<usize>)
        requires
            self.entries_ok(),
        ensures
            match r {
                Some(i) => i < self.grid@.len() && self.grid@[i as int].0 == coords,
                None => !self@.grid.contains_key(coords),
            },
    {
        proof {
            if self@.grid.contains_key(coords) {
                let j = choose|j: int| 0 <= j < self.grid@.len() && self.grid@[j].0 == coords;
                assert(in_bounds(self.grid@[j].0));
                assert(self.index@.contains_key(coord_key(self.grid@[j].0)));
            }
        }
        if !(-COORD_LIMIT <= coords.x && coords.x <= COORD_LIMIT && -COORD_LIMIT <= coords.y
            && coords.y <= COORD_LIMIT) {
            return None;
        }
        let key = key_of(coords);
        match self.index.get(&key) {
            Some(i) => {
                let i = *i;
                proof {
                    assert(self.index@.contains_key(key));
                    assert(in_bounds(self.grid@[i as int].0));
                    lemma_coord_key_injective(self.grid@[i as int].0, coords);
                }
                Some(i)
            },
            None => None,
        }
    }

    /// Adds a tile at coordinates that have none.
    fn push_entry(&mut self, coords: Coord, tile: Tile)
        requires
            old(self).wf(),
            in_bounds(coords),
            tile.is_valid(),
            !old(self)@.grid.contains_key(coords),
        ensures
            final(self).wf(),
            final(self)@ == (WorldView { grid: old(self)@.grid.insert(coords, tile), ..old(self)@ }),
    {
        let n = self.grid.len();
        proof {
            lemma_grid_of_push(self.grid@, coords, tile);
            assert forall|i: int| 0 <= i < self.grid@.len() implies self.grid@[i].0 != coords by {
                if self.grid@[i].0 == coords {
                    assert(grid_of(self.grid@).contains_key(coords));
                }
            }
            lemma_index_push(self.grid@, self.index@, coords, tile);
        }
        self.index.insert(key_of(coords), n);
        self.grid.push((coords, tile));
    }

    /// Puts a tile at the given coordinates, replacing any tile there.
    pub fn place_tile(&mut self, coords: Coord, tile: Tile)
        requires
            old(self).wf(),
            in_bounds(coords),
            tile.is_valid(),
        ensures
            final(self).wf(),
            final(self)@ == (WorldView { grid: old(self)@.grid.insert(coords, tile), ..old(self)@ }),
    {
        match self.index_of(coords) {
            Some(i) => {
                proof {
                    lemma_grid_of_update(self.grid@, i as int, tile);
                    lemma_index_update(self.grid@, self.index@, i as int, tile);
                }
                self.grid.set(i, (coords, tile));
            },
            None => {
                self.push_entry(coords, tile);
            },
        }
    }

    /// Puts a tile at the given coordinates unless a tile is already there.
    pub fn place_tile_no_overwrite(&mut self, coords: Coord, tile: Tile)
        requires
            old(self).wf(),
            in_bounds(coords),
            tile.is_valid(),
        ensures
            final(self).wf(),
            final(self)@ == (WorldView {
                grid: if old(self)@.grid.contains_key(coords) {
                    old(self)@.grid
                } else {
                    old(self)@.grid.insert(coords, tile)
                },
                ..old(self)@
            }),
    {
        if self.index_of(coords).is_none() {
            self.push_entry(coords, tile);
        }
    }

    /// Replaces the object on the existing tile at `coords`.
    pub fn set_obj(&mut self, coords: Coord, obj: Option<Obj>)
        requires
            old(self).wf(),
            old(self)@.grid.contains_key(coords),
            obj matches Some(o) ==> o.is_valid(),
        ensures
            final(self).wf(),
            final(self)@ == (WorldView { grid: with_obj(old(self)@.grid, coords, obj), ..old(self)@ }),
    {
        let i = self.index_of(coords).unwrap();
        let (c, t) = self.grid[i];
        proof {
            lemma_grid_of_index(self.grid@, i as int);
            lemma_grid_of_update(self.grid@, i as int, Tile { obj, ..t });
            lemma_index_update(self.grid@, self.index@, i as int, Tile { obj, ..t });
        }
        self.grid.set(i, (c, Tile { obj, ..t }));
    }

    /// Sets the visibility flag of the existing tile at `coords`.
    pub fn set_visible(&mut self, coords: Coord, visible: bool)
        requires
            old(self).wf(),
            old(self)@.grid.contains_key(coords),
        ensures
            final(self).wf(),
            final(self)@ == (WorldView {
                grid: old(self)@.grid.insert(coords, Tile { visible, ..old(self)@.grid[coords] }),
                ..old(self)@
            }),
    {
        let i = self.index_of(coords).unwrap();
        let (c, t) = self.grid[i];
        proof {
            lemma_grid_of_index(self.grid@, i as int);
            lemma_grid_of_update(self.grid@, i as int, Tile { visible, ..t });
            lemma_index_update(self.grid@, self.index@, i as int, Tile { visible, ..t });
        }
        self.grid.set(i, (c, Tile { visible, ..t }));
    }

    /// Every tile with its coordinates, in storage order.
    pub fn tiles(&self) -> (r: Vec<(Coord, Tile)>)
        requires
            self.entries_ok(),
        ensures
            r@ == self.entries(),
            forall|i: int| 0 <= i < r@.len() ==> self@.grid.contains_key(#[trigger] r@[i].0)
                && self@.grid[r@[i].0] == r@[i].1,
            forall|c: Coord| #[trigger] self@.grid.contains_key(c) ==> exists|i: int|
                0 <= i < r@.len() && r@[i].0 == c,
    {
        proof {
            self.lemma_entries();
        }
        self.copy().grid
    }

    pub fn tile(&self, coords: Coord) -> (r: Option<&Tile>)
        requires
            self.entries_ok(),
        ensures
            match r {
                Some(t) => self@.grid.contains_key(coords) && *t == self@.grid[coords],
                None => !self@.grid.contains_key(coords),
            },
    {
        match self.index_of(coords) {
            Some(i) => {
                proof {
                    lemma_grid_of_index(self.grid@, i as int);
                }
                Some(&self.grid[i].1)
            },
            None => None,
        }
    }

    pub fn obj(&self, coords: Coord) -> (r: Option<&Obj>)
        requires
            self.entries_ok(),
        ensures
            match r {
                Some(o) => obj_at(self@.grid, coords) == Some(*o),
                None => obj_at(self@.grid, coords) is None,
            },
    {
        match self.tile(coords) {
            Some(t) => t.obj.as_ref(),
            None => None,
        }
    }

    /// The object at `coords`, copied out.
    pub fn obj_copy(&self, coords: Coord) -> (r: Option<Obj>)
        requires
            self.entries_ok(),
        ensures
            r == obj_at(self@.grid, coords),
    {
        match self.tile(coords) {
            Some(t) => t.obj,
            None => None,
        }
    }

    /// Where the player stands, if there is a player.
    pub fn player_coords(&self) -> (r: Option<Coord>)
        requires
            self.entries_ok(),
        ensures
            r == self.player(),
            match r {
                Some(c) => is_bunny(obj_at(self@.grid, c)),
                None => forall|c: Coord| !is_bunny(#[trigger] obj_at(self@.grid, c)),
            },
    {
        proof {
            self.lemma_player();
        }
        let mut i: usize = 0;
        while i < self.grid.len()
            invariant
                self.entries_ok(),
                i <= self.grid@.len(),
                first_bunny_from(self.grid@, 0) == first_bunny_from(self.grid@, i as nat),
            decreases self.grid@.len() - i,
        {
            let (c, t) = self.grid[i];
            if let Some(Obj::Bunny { .. }) = t.obj {
                proof {
                    self.lemma_player();
                }
                return Some(c);
            }
            i = i + 1;
        }
        None
    }

    pub fn redo_count(&self) -> (r: i32)
        ensures
            r == self@.redo_count,
    {
        self.redo_count
    }

    pub fn max_redo_count(&self) -> (r: i32)
        ensures
            r == self@.max_redo_count,
    {
        self.max_redo_count
    }

    pub fn set_redo_count(&mut self, redo_count: i32)
        requires
            old(self).wf(),
        ensures
            final(self).wf(),
            final(self)@ == (WorldView { redo_count, ..old(self)@ }),
            final(self).entries() == old(self).entries(),
    {
        self.redo_count = redo_count;
    }

    pub fn has_player(&self) -> (r: bool)
        requires
            self.entries_ok(),
        ensures
            r == exists|c: Coord| is_bunny(#[trigger] obj_at(self@.grid, c)),
    {
        match self.player_coords() {
            Some(c) => {
                assert(is_bunny(obj_at(self@.grid, c)));
                true
            },
            None => false,
        }
    }
}

} // verus!
