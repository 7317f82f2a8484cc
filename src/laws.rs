//! Laws of the engine, stated over the specifications of its functions and
//! proved by Verus.

use vstd::prelude::*;
use crate::coords::{Coord, is_dir, offset};
use crate::obj::{Obj, Tile};
use crate::resolver::{
    InteractionConsequences, ScanEnd, back_scan, carried, chain_occupied, exact, fails_along,
    failed_grid, front_events, gained_redo, interaction, interaction_at, keys_in_bounds,
    lemma_back_scan, lemma_distinct, lemma_pull_count, lemma_push_plan, move_outcome, occupied,
    pull_length, pulled, push_plan, push_scan, pushed_grid, shifted,
};
use crate::visibility::{corner_visible, edge_visible, ray_visible, visible, with_visibility};
use crate::world::{WorldView, obj_at, view_ok, with_obj};

verus! {

/// A hit kills as soon as its damages reach the target's hit points, so a hit
/// equal to them never leaves a target alive at zero; one point less leaves it
/// alive with exactly one hit point.
pub proof fn law_kill_boundary(src: Obj, dst: Obj, at: Coord)
    requires
        dst.spec_hp() is Some,
    ensures
        src.spec_damages() >= dst.spec_hp()->0 ==> interaction(src, dst, at) == Some(
            InteractionConsequences::Kill { damages: src.spec_damages() },
        ),
        src.spec_damages() == dst.spec_hp()->0 - 1 ==> {
            &&& interaction(src, dst, at) == Some(
                InteractionConsequences::NonLethalHit { damages: src.spec_damages() },
            )
            &&& dst.damaged(src.spec_damages()).spec_hp() == Some(1i32)
        },
{
}

proof fn lemma_shifted_at(g: Map<Coord, Tile>, m: Coord, d: Coord, n: nat, j: int)
    requires
        is_dir(d),
        0 <= j < n,
        forall|k: int| 0 <= k < n ==> #[trigger] exact(m, d, k),
    ensures
        obj_at(shifted(g, m, d, n), offset(m, d, j)) == carried(g, m, d, j),
    decreases n,
{
    if j < n - 1 {
        lemma_shifted_at(g, m, d, (n - 1) as nat, j);
        assert(exact(m, d, j) && exact(m, d, n - 1));
        lemma_distinct(m, d, j, n - 1);
    }
}

proof fn lemma_pulled_keeps(
    pushed: Map<Coord, Tile>,
    g: Map<Coord, Tile>,
    m: Coord,
    d: Coord,
    n: nat,
    j: int,
)
    requires
        is_dir(d),
        j >= 1,
        exact(m, d, j),
        forall|k: int| -n <= k <= 0 ==> #[trigger] exact(m, d, k),
    ensures
        obj_at(pulled(pushed, g, m, d, n), offset(m, d, j)) == obj_at(pushed, offset(m, d, j)),
    decreases n,
{
    if n > 0 {
        lemma_pulled_keeps(pushed, g, m, d, (n - 1) as nat, j);
        assert(exact(m, d, -n) && exact(m, d, -(n - 1)));
        lemma_distinct(m, d, j, -n);
        lemma_distinct(m, d, j, -(n - 1));
    }
}

/// A push that reaches an empty tile, with no interaction at its front, moves
/// each object of the chain exactly one tile forward: the chain's objects are
/// kept, in the same order, shifted by one tile.
pub proof fn law_push_conserves_chain(w: WorldView, m: Coord, d: Coord, f: int)
    requires
        view_ok(w),
        is_dir(d),
        obj_at(w.grid, m) is Some,
    ensures
        ({
            let p = push_plan(w.grid, m, d, f);
            let after = move_outcome(w, m, d, f).world.grid;
            p.success && p.interaction is None ==> {
                &&& forall|i: int|
                    0 <= i < p.length ==> #[trigger] obj_at(after, offset(m, d, i + 1)) == obj_at(
                        w.grid,
                        offset(m, d, i),
                    )
                &&& Seq::new(p.length, |i: int| obj_at(after, offset(m, d, i + 1))) == Seq::new(
                    p.length,
                    |i: int| obj_at(w.grid, offset(m, d, i)),
                )
            }
        }),
{
    let g = w.grid;
    let p = push_plan(g, m, d, f);
    let n = pull_length(g, m, d, f);
    assert(keys_in_bounds(g));
    lemma_push_plan(g, m, d, f);
    if p.success && p.interaction is None {
        assert(offset(m, d, 0) == m);
        lemma_pull_count(g, m, d, f, 0, false);
        assert forall|k: int| 0 <= k < p.length + 1 implies #[trigger] exact(m, d, k) by {
            if k < p.length {
                assert(occupied(g, m, d, k) && exact(m, d, k));
            }
        }
        assert forall|k: int| -n <= k <= 0 implies #[trigger] exact(m, d, k) by {
            if k < 0 {
                assert(-(0 + pull_length(g, m, d, f)) <= k < -0);
                assert(occupied(g, m, d, k));
            }
        }
        let pushed = pushed_grid(g, m, d, p);
        let after_pull = pulled(pushed, g, m, d, n);
        assert forall|i: int| 0 <= i < p.length implies #[trigger] obj_at(
            move_outcome(w, m, d, f).world.grid,
            offset(m, d, i + 1),
        ) == obj_at(g, offset(m, d, i)) by {
            lemma_shifted_at(g, m, d, p.length + 1, i + 1);
            lemma_pulled_keeps(pushed, g, m, d, n, i + 1);
            lemma_distinct(m, d, 0, i + 1);
            assert(obj_at(after_pull, offset(m, d, i + 1)) == obj_at(g, offset(m, d, i)));
        }
        assert(Seq::new(p.length, |i: int| obj_at(move_outcome(w, m, d, f).world.grid, offset(m, d, i + 1)))
            =~= Seq::new(p.length, |i: int| obj_at(g, offset(m, d, i))));
    }
}

/// A move whose push fails leaves every object of the attempted chain where and
/// as it was; without an interaction the whole world is unchanged, and with one
/// only the surviving target loses hit points.
pub proof fn law_failed_push_keeps_chain(w: WorldView, m: Coord, d: Coord, f: int)
    requires
        view_ok(w),
        is_dir(d),
        obj_at(w.grid, m) is Some,
    ensures
        ({
            let p = push_plan(w.grid, m, d, f);
            let o = move_outcome(w, m, d, f);
            !p.success ==> {
                &&& o.events == fails_along(m, d, p.length) + front_events(w.grid, m, d, p)
                &&& o.world.grid.dom() == w.grid.dom()
                &&& o.world.redo_count == w.redo_count
                &&& forall|i: int|
                    0 <= i < p.length ==> #[trigger] obj_at(o.world.grid, offset(m, d, i)) == obj_at(
                        w.grid,
                        offset(m, d, i),
                    )
                &&& p.interaction is None ==> o.world == w
                &&& p.interaction matches Some(InteractionConsequences::NonLethalHit { damages }) ==> {
                    let front = offset(m, d, p.length as int);
                    o.world.grid == with_obj(
                        w.grid,
                        front,
                        Some(obj_at(w.grid, front)->0.damaged(damages)),
                    )
                }
            }
        }),
{
    let g = w.grid;
    let p = push_plan(g, m, d, f);
    assert(keys_in_bounds(g));
    lemma_push_plan(g, m, d, f);
    if !p.success {
        assert(offset(m, d, 0) == m);
        assert(occupied(g, m, d, 0) && exact(m, d, 0));
        lemma_distinct(m, d, 0, p.length as int);
        assert forall|i: int| 0 <= i < p.length implies #[trigger] obj_at(
            move_outcome(w, m, d, f).world.grid,
            offset(m, d, i),
        ) == obj_at(g, offset(m, d, i)) by {
            assert(occupied(g, m, d, i) && exact(m, d, i));
            lemma_distinct(m, d, i, p.length as int);
        }
        if p.interaction is None {
            assert(move_outcome(w, m, d, f).world =~= w);
        } else {
            assert(g.contains_key(offset(m, d, p.length as int)));
            assert(failed_grid(g, m, d, p).dom() =~= g.dom());
        }
    }
}

/// The push from `m` along `d` ends on an existing empty tile, `n` tiles away.
pub open spec fn ends_on_empty(g: Map<Coord, Tile>, m: Coord, d: Coord, n: int) -> bool {
    &&& n >= 1
    &&& chain_occupied(g, m, d, n - 1)
    &&& exact(m, d, n)
    &&& g.contains_key(offset(m, d, n))
    &&& obj_at(g, offset(m, d, n)) is None
}

/// No object of the chain would merely hurt the next one.
pub open spec fn no_surviving_hit(g: Map<Coord, Tile>, m: Coord, d: Coord, n: int) -> bool {
    forall|j: int|
        1 <= j < n ==> !(#[trigger] interaction_at(g, m, d, j) matches Some(
            InteractionConsequences::NonLethalHit { .. },
        ))
}

proof fn lemma_scan_before_empty(g: Map<Coord, Tile>, m: Coord, d: Coord, rem: int, i: nat, n: int)
    requires
        ends_on_empty(g, m, d, n),
        1 <= i <= n,
    ensures
        match push_scan(g, m, d, rem, i) {
            ScanEnd::Empty(e) => e == n,
            ScanEnd::Blocked(b) => i <= b < n,
            ScanEnd::Edge(_) => false,
        },
    decreases rem,
{
    if i < n {
        assert(occupied(g, m, d, i as int));
        let o = obj_at(g, offset(m, d, i as int))->0;
        if rem - o.spec_mass() >= 0 {
            lemma_scan_before_empty(g, m, d, rem - o.spec_mass(), i + 1, n);
        }
    }
}

proof fn lemma_scan_monotonic(
    g: Map<Coord, Tile>,
    m: Coord,
    d: Coord,
    rem1: int,
    rem2: int,
    i: nat,
    n: int,
)
    requires
        ends_on_empty(g, m, d, n),
        1 <= i <= n,
        rem1 <= rem2,
        push_scan(g, m, d, rem2, i) is Blocked,
    ensures
        push_scan(g, m, d, rem1, i) matches ScanEnd::Blocked(b1) && b1 <= push_scan(
            g,
            m,
            d,
            rem2,
            i,
        )->Blocked_0,
    decreases rem2,
{
    lemma_scan_before_empty(g, m, d, rem1, i, n);
    lemma_scan_before_empty(g, m, d, rem2, i, n);
    if i < n {
        assert(occupied(g, m, d, i as int));
        let o = obj_at(g, offset(m, d, i as int))->0;
        if rem1 - o.spec_mass() >= 0 {
            lemma_scan_monotonic(g, m, d, rem1 - o.spec_mass(), rem2 - o.spec_mass(), i + 1, n);
        }
    }
}

proof fn lemma_back_scan_succeeds(g: Map<Coord, Tile>, m: Coord, d: Coord, b: nat, k: nat, j: int)
    requires
        1 <= j <= k,
        interaction_at(g, m, d, j) is Some,
        forall|i: int|
            1 <= i <= k ==> !(#[trigger] interaction_at(g, m, d, i) matches Some(
                InteractionConsequences::NonLethalHit { .. },
            )),
    ensures
        back_scan(g, m, d, b, k).success,
    decreases k,
{
    if interaction_at(g, m, d, k as int) is None {
        lemma_back_scan_succeeds(g, m, d, b, (k - 1) as nat, j);
    }
}

/// More force never turns a successful push into a failed one, for a chain that
/// ends on an empty tile and in which no object would merely hurt the next.
pub proof fn law_force_monotonic(g: Map<Coord, Tile>, m: Coord, d: Coord, n: int, f1: int, f2: int)
    requires
        keys_in_bounds(g),
        is_dir(d),
        ends_on_empty(g, m, d, n),
        no_surviving_hit(g, m, d, n),
        f1 <= f2,
        push_plan(g, m, d, f1).success,
    ensures
        push_plan(g, m, d, f2).success,
{
    lemma_scan_before_empty(g, m, d, f1, 1, n);
    lemma_scan_before_empty(g, m, d, f2, 1, n);
    if push_scan(g, m, d, f2, 1) is Blocked {
        lemma_scan_monotonic(g, m, d, f1, f2, 1, n);
        let b1 = push_scan(g, m, d, f1, 1)->Blocked_0;
        let b2 = push_scan(g, m, d, f2, 1)->Blocked_0;
        assert(chain_occupied(g, m, d, b1 as int));
        lemma_back_scan(g, m, d, b1, b1);
        let j = back_scan(g, m, d, b1, b1).length as int;
        lemma_back_scan_succeeds(g, m, d, b2, b2, j);
    }
}

/// The player's own tile is always visible, whatever blocks the view.
pub proof fn law_player_tile_visible(g: Map<Coord, Tile>, p: Coord)
    requires
        g.contains_key(p),
    ensures
        with_visibility(g, Some(p))[p].visible,
{
    assert(ray_visible(g, p, p));
    assert(edge_visible(g, p, p));
    assert(corner_visible(g, p, p));
    assert(visible(g, Some(p), p));
}

/// The redo count after `n` redo hearts were eaten, starting from `r`.
pub open spec fn redo_after_gains(r: i32, max: i32, n: nat) -> i32
    decreases n,
{
    if n == 0 {
        r
    } else {
        gained_redo(redo_after_gains(r, max, (n - 1) as nat), max)
    }
}

/// However many redo hearts are eaten, the redo count ends within `0 ..= max`.
pub proof fn law_redo_clamp(r: i32, max: i32, n: nat)
    requires
        0 <= max,
        n >= 1 || 0 <= r <= max,
    ensures
        0 <= redo_after_gains(r, max, n) <= max,
    decreases n,
{
    if n > 1 {
        law_redo_clamp(r, max, (n - 1) as nat);
    }
}

/// A move keeps the redo count within `0 ..= max`.
pub proof fn law_move_keeps_redo_in_range(w: WorldView, m: Coord, d: Coord, f: int)
    requires
        0 <= w.redo_count <= w.max_redo_count,
    ensures
        0 <= move_outcome(w, m, d, f).world.redo_count <= move_outcome(w, m, d, f).world.max_redo_count,
{
}

} // verus!
