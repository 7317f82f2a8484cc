use pushdg::coords::Coord;
use pushdg::events::LogicalEvent;
use pushdg::obj::{Obj, Tile};
use pushdg::resolver::InteractionConsequences;
use pushdg::world::LogicalWorld;

fn c(x: i32, y: i32) -> Coord {
    Coord::new(x, y)
}

const RIGHT: Coord = Coord { x: 1, y: 0 };

fn bunny(hp: i32) -> Obj {
    Obj::Bunny { hp, max_hp: 7 }
}

/// A row of tiles from x = 0 on, `None` standing for bare floor.
fn row_world(objs: &[Option<Obj>]) -> LogicalWorld {
    let mut lw = LogicalWorld::new_empty();
    for (i, o) in objs.iter().enumerate() {
        let tile = match o {
            Some(o) => Tile::obj(*o),
            None => Tile::floor(),
        };
        lw.place_tile(c(i as i32, 0), tile);
    }
    lw
}

fn obj_at(lw: &LogicalWorld, x: i32, y: i32) -> Option<Obj> {
    lw.obj(c(x, y)).copied()
}

#[test]
fn bunny_pushes_rock_into_empty_tile() {
    let lw = row_world(&[Some(bunny(7)), Some(Obj::Rock), None]);
    let t = lw.try_to_move(c(0, 0), RIGHT, 2);
    assert_eq!(
        t.logical_events,
        vec![
            LogicalEvent::Move { from: c(0, 0), to: c(1, 0) },
            LogicalEvent::Move { from: c(1, 0), to: c(2, 0) },
        ]
    );
    let rock_moves = t
        .logical_events
        .iter()
        .filter(|e| **e == LogicalEvent::Move { from: c(1, 0), to: c(2, 0) })
        .count();
    assert_eq!(rock_moves, 1);
    assert_eq!(obj_at(&t.resulting_lw, 0, 0), None);
    assert_eq!(obj_at(&t.resulting_lw, 1, 0), Some(bunny(7)));
    assert_eq!(obj_at(&t.resulting_lw, 2, 0), Some(Obj::Rock));
}

#[test]
fn bunny_fails_to_push_wall() {
    let lw = row_world(&[Some(bunny(7)), Some(Obj::Wall), None]);
    let t = lw.try_to_move(c(0, 0), RIGHT, 2);
    assert_eq!(t.logical_events, vec![LogicalEvent::FailToMove { from: c(0, 0), to: c(1, 0) }]);
    assert_eq!(t.resulting_lw.tiles(), lw.tiles());
    assert_eq!(t.resulting_lw.redo_count, lw.redo_count);
}

#[test]
fn sword_hits_slime_without_killing() {
    let slime = Obj::Slime { hp: 5, move_token: false };
    let lw = row_world(&[Some(bunny(7)), Some(Obj::Sword), Some(slime), None]);
    let plan = lw.what_would_happen_if_try_to_move(c(0, 0), RIGHT, 2);
    assert!(!plan.success);
    assert_eq!(plan.final_interaction, Some(InteractionConsequences::NonLethalHit { damages: 3 }));
    let t = lw.try_to_move(c(0, 0), RIGHT, 2);
    assert_eq!(
        t.logical_events,
        vec![
            LogicalEvent::FailToMove { from: c(0, 0), to: c(1, 0) },
            LogicalEvent::FailToMove { from: c(1, 0), to: c(2, 0) },
            LogicalEvent::Hit { at: c(2, 0), damages: 3 },
        ]
    );
    assert_eq!(obj_at(&t.resulting_lw, 2, 0), Some(Obj::Slime { hp: 2, move_token: false }));
    assert_eq!(obj_at(&t.resulting_lw, 1, 0), Some(Obj::Sword));
    assert_eq!(obj_at(&t.resulting_lw, 0, 0), Some(bunny(7)));
}

#[test]
fn sword_kills_weak_slime() {
    let slime = Obj::Slime { hp: 2, move_token: false };
    let lw = row_world(&[Some(bunny(7)), Some(Obj::Sword), Some(slime), None]);
    let t = lw.try_to_move(c(0, 0), RIGHT, 2);
    assert_eq!(
        t.logical_events,
        vec![
            LogicalEvent::Move { from: c(0, 0), to: c(1, 0) },
            LogicalEvent::Move { from: c(1, 0), to: c(2, 0) },
            LogicalEvent::Killed { obj: slime, at: c(2, 0), damages: 3 },
        ]
    );
    assert_eq!(obj_at(&t.resulting_lw, 2, 0), Some(Obj::Sword));
    assert_eq!(obj_at(&t.resulting_lw, 1, 0), Some(bunny(7)));
    assert_eq!(obj_at(&t.resulting_lw, 0, 0), None);
}

#[test]
fn key_opens_door() {
    let mut lw = LogicalWorld::new_empty();
    lw.place_tile(c(-1, 0), Tile::obj(bunny(7)));
    lw.place_tile(c(0, 0), Tile::obj(Obj::Key));
    lw.place_tile(c(1, 0), Tile::obj(Obj::Door));
    let t = lw.try_to_move(c(-1, 0), RIGHT, 2);
    assert_eq!(
        t.logical_events,
        vec![
            LogicalEvent::Move { from: c(-1, 0), to: c(0, 0) },
            LogicalEvent::Move { from: c(0, 0), to: c(1, 0) },
            LogicalEvent::DoorOpenedWithKey {
                key_obj: Obj::Key,
                door_obj: Obj::Door,
                from: c(0, 0),
                to: c(1, 0),
            },
        ]
    );
    assert_eq!(obj_at(&t.resulting_lw, 1, 0), None);
    assert_eq!(obj_at(&t.resulting_lw, 0, 0), Some(bunny(7)));
    assert_eq!(obj_at(&t.resulting_lw, -1, 0), None);
}

#[test]
fn more_force_pushes_longer_chain() {
    let lw = row_world(&[Some(bunny(7)), Some(Obj::Rock), Some(Obj::Rock), None]);
    assert!(!lw.what_would_happen_if_try_to_move(c(0, 0), RIGHT, 1).success);
    assert!(lw.what_would_happen_if_try_to_move(c(0, 0), RIGHT, 2).success);
    assert!(lw.what_would_happen_if_try_to_move(c(0, 0), RIGHT, 3).success);
    assert!(lw.what_would_happen_if_try_to_move(c(0, 0), RIGHT, 50).success);
}

#[test]
fn force_exactly_used_up_still_pushes() {
    let lw = row_world(&[Some(bunny(7)), Some(Obj::Rock), Some(Obj::Rock), None]);
    let plan = lw.what_would_happen_if_try_to_move(c(0, 0), RIGHT, 2);
    assert!(plan.success);
    assert_eq!(plan.non_pulled_length, 3);
    assert_eq!(plan.final_interaction, None);
}

#[test]
fn damage_equal_to_hp_kills_and_one_less_wounds() {
    let lw = LogicalWorld::new_empty();
    let kill = lw.what_would_happen_if_interact(
        &bunny(7),
        &Obj::Slime { hp: 1, move_token: false },
        c(1, 0),
    );
    assert_eq!(kill, Some(InteractionConsequences::Kill { damages: 1 }));
    let hit = lw.what_would_happen_if_interact(
        &bunny(7),
        &Obj::Slime { hp: 2, move_token: false },
        c(1, 0),
    );
    assert_eq!(hit, Some(InteractionConsequences::NonLethalHit { damages: 1 }));
    let wounded = row_world(&[Some(bunny(7)), Some(Obj::Slime { hp: 2, move_token: false }), None]);
    let t = wounded.try_to_move(c(0, 0), RIGHT, 2);
    assert_eq!(obj_at(&t.resulting_lw, 1, 0), Some(Obj::Slime { hp: 1, move_token: false }));
    let dying = row_world(&[Some(bunny(7)), Some(Obj::Slime { hp: 1, move_token: false }), None]);
    let t = dying.try_to_move(c(0, 0), RIGHT, 2);
    assert_eq!(obj_at(&t.resulting_lw, 1, 0), Some(bunny(7)));
}

#[test]
fn failed_push_leaves_world_as_it_was() {
    let lw = row_world(&[Some(bunny(7)), Some(Obj::Rock), Some(Obj::Rock), Some(Obj::Wall)]);
    let t = lw.try_to_move(c(0, 0), RIGHT, 2);
    assert_eq!(
        t.logical_events,
        vec![
            LogicalEvent::FailToMove { from: c(0, 0), to: c(1, 0) },
            LogicalEvent::FailToMove { from: c(1, 0), to: c(2, 0) },
            LogicalEvent::FailToMove { from: c(2, 0), to: c(3, 0) },
        ]
    );
    assert_eq!(t.resulting_lw.tiles(), lw.tiles());
}

#[test]
fn push_at_edge_of_world_fails() {
    let lw = row_world(&[Some(bunny(7)), Some(Obj::Rock)]);
    let t = lw.try_to_move(c(0, 0), RIGHT, 2);
    assert_eq!(
        t.logical_events,
        vec![
            LogicalEvent::FailToMove { from: c(0, 0), to: c(1, 0) },
            LogicalEvent::FailToMove { from: c(1, 0), to: c(2, 0) },
        ]
    );
    assert_eq!(t.resulting_lw.tiles(), lw.tiles());
}

#[test]
fn successful_push_shifts_chain_by_one() {
    let objs = [Some(bunny(7)), Some(Obj::Rock), Some(Obj::Key), None];
    let lw = row_world(&objs);
    let t = lw.try_to_move(c(0, 0), RIGHT, 5);
    for i in 0..3 {
        assert_eq!(obj_at(&t.resulting_lw, i + 1, 0), objs[i as usize]);
    }
    assert_eq!(obj_at(&t.resulting_lw, 0, 0), None);
}

#[test]
fn object_leaves_through_exit() {
    let lw = row_world(&[Some(bunny(7)), Some(Obj::Rock), Some(Obj::Exit), Some(Obj::Wall)]);
    let t = lw.try_to_move(c(0, 0), RIGHT, 2);
    assert_eq!(
        t.logical_events,
        vec![
            LogicalEvent::Move { from: c(0, 0), to: c(1, 0) },
            LogicalEvent::Exit { obj: Obj::Rock, from: c(1, 0), to: c(2, 0) },
        ]
    );
    assert_eq!(obj_at(&t.resulting_lw, 2, 0), Some(Obj::Exit));
    assert_eq!(obj_at(&t.resulting_lw, 1, 0), Some(bunny(7)));
    assert_eq!(obj_at(&t.resulting_lw, 0, 0), None);
}

#[test]
fn heart_heals_bunny() {
    let lw = row_world(&[Some(bunny(3)), Some(Obj::Heart), Some(Obj::Wall)]);
    let t = lw.try_to_move(c(0, 0), RIGHT, 0);
    assert_eq!(
        t.logical_events,
        vec![
            LogicalEvent::Move { from: c(0, 0), to: c(1, 0) },
            LogicalEvent::Healed { obj: bunny(7), at: c(1, 0) },
        ]
    );
    assert_eq!(obj_at(&t.resulting_lw, 1, 0), Some(bunny(7)));
}

#[test]
fn redo_heart_adds_redo_up_to_cap() {
    let lw = row_world(&[Some(bunny(7)), Some(Obj::RedoHeart), Some(Obj::Wall)]);
    let t = lw.try_to_move(c(0, 0), RIGHT, 0);
    assert_eq!(t.resulting_lw.redo_count, 4);
    assert_eq!(
        t.logical_events[1],
        LogicalEvent::RedoGained { obj: Obj::RedoHeart, at: c(1, 0) }
    );
    let mut full = row_world(&[Some(bunny(7)), Some(Obj::RedoHeart), Some(Obj::Wall)]);
    full.redo_count = 9;
    let t = full.try_to_move(c(0, 0), RIGHT, 0);
    assert_eq!(t.resulting_lw.redo_count, 9);
    let mut count = 3;
    for _ in 0..12 {
        let mut lw = row_world(&[Some(bunny(7)), Some(Obj::RedoHeart), Some(Obj::Wall)]);
        lw.redo_count = count;
        count = lw.try_to_move(c(0, 0), RIGHT, 2).resulting_lw.redo_count;
        assert!(count >= 0 && count <= 9);
    }
    assert_eq!(count, 9);
}

#[test]
fn pickaxe_mines_wall() {
    let lw = row_world(&[Some(bunny(7)), Some(Obj::Pickaxe), Some(Obj::Wall)]);
    let t = lw.try_to_move(c(0, 0), RIGHT, 2);
    assert_eq!(
        t.logical_events,
        vec![
            LogicalEvent::Move { from: c(0, 0), to: c(1, 0) },
            LogicalEvent::Move { from: c(1, 0), to: c(2, 0) },
            LogicalEvent::Mined { obj: Obj::Wall, at: c(2, 0) },
        ]
    );
    assert_eq!(obj_at(&t.resulting_lw, 2, 0), Some(Obj::Pickaxe));
}

#[test]
fn stomping_a_shroom() {
    let shroom = Obj::Shroom { move_token: false };
    let lw = row_world(&[Some(bunny(7)), Some(shroom)]);
    let t = lw.try_to_move(c(0, 0), RIGHT, 2);
    assert_eq!(
        t.logical_events,
        vec![
            LogicalEvent::Move { from: c(0, 0), to: c(1, 0) },
            LogicalEvent::Stomped { obj: shroom, at: c(1, 0) },
        ]
    );
    assert_eq!(obj_at(&t.resulting_lw, 1, 0), Some(bunny(7)));
}

#[test]
fn rope_is_pulled_with_what_follows() {
    let mut lw = LogicalWorld::new_empty();
    lw.place_tile(c(-2, 0), Tile::obj(Obj::Rock));
    lw.place_tile(c(-1, 0), Tile::obj(Obj::Rope));
    lw.place_tile(c(0, 0), Tile::obj(bunny(7)));
    lw.place_tile(c(1, 0), Tile::floor());
    let t = lw.try_to_move(c(0, 0), RIGHT, 2);
    assert_eq!(
        t.logical_events,
        vec![
            LogicalEvent::Move { from: c(0, 0), to: c(1, 0) },
            LogicalEvent::Move { from: c(-1, 0), to: c(0, 0) },
            LogicalEvent::Move { from: c(-2, 0), to: c(-1, 0) },
        ]
    );
    assert_eq!(obj_at(&t.resulting_lw, 1, 0), Some(bunny(7)));
    assert_eq!(obj_at(&t.resulting_lw, 0, 0), Some(Obj::Rope));
    assert_eq!(obj_at(&t.resulting_lw, -1, 0), Some(Obj::Rock));
    assert_eq!(obj_at(&t.resulting_lw, -2, 0), None);
}

#[test]
fn rock_behind_is_not_pulled() {
    let mut lw = LogicalWorld::new_empty();
    lw.place_tile(c(-1, 0), Tile::obj(Obj::Rock));
    lw.place_tile(c(0, 0), Tile::obj(bunny(7)));
    lw.place_tile(c(1, 0), Tile::floor());
    let t = lw.try_to_move(c(0, 0), RIGHT, 2);
    assert_eq!(t.logical_events, vec![LogicalEvent::Move { from: c(0, 0), to: c(1, 0) }]);
    assert_eq!(obj_at(&t.resulting_lw, -1, 0), Some(Obj::Rock));
}

#[test]
fn shroomer_leaves_shroom_behind() {
    let shroomer = Obj::Shroomer { hp: 5, move_token: false };
    let lw = row_world(&[Some(shroomer), None]);
    let t = lw.try_to_move(c(0, 0), RIGHT, 2);
    assert_eq!(obj_at(&t.resulting_lw, 1, 0), Some(shroomer));
    assert_eq!(obj_at(&t.resulting_lw, 0, 0), Some(Obj::Shroom { move_token: false }));
}

#[test]
fn shroomer_next_to_shroom_leaves_nothing() {
    let shroomer = Obj::Shroomer { hp: 5, move_token: false };
    let mut lw = row_world(&[Some(shroomer), None]);
    lw.place_tile(c(0, 1), Tile::obj(Obj::Shroom { move_token: false }));
    let t = lw.try_to_move(c(0, 0), RIGHT, 2);
    assert_eq!(obj_at(&t.resulting_lw, 0, 0), None);
}

#[test]
fn pushed_fish_keeps_its_facing() {
    let fish = Obj::Fish { direction: c(0, 1), move_token: false };
    let lw = row_world(&[Some(bunny(7)), Some(fish), None]);
    let t = lw.try_to_move(c(0, 0), RIGHT, 2);
    assert_eq!(obj_at(&t.resulting_lw, 2, 0), Some(fish));
}

#[test]
fn sacrifice_hit_hurts_and_removes_hitter() {
    let lw = row_world(&[Some(Obj::Shroom { move_token: false }), Some(bunny(7))]);
    let t = lw.sacrifice_hit(c(0, 0), RIGHT);
    assert_eq!(
        t.logical_events,
        vec![
            LogicalEvent::MoveInto { obj: Obj::Shroom { move_token: false }, from: c(0, 0), to: c(1, 0) },
            LogicalEvent::Hit { at: c(1, 0), damages: 1 },
        ]
    );
    assert_eq!(obj_at(&t.resulting_lw, 0, 0), None);
    assert_eq!(obj_at(&t.resulting_lw, 1, 0), Some(bunny(6)));
}

#[test]
fn sacrifice_hit_kills_at_zero_hp() {
    let shroomer = Obj::Shroomer { hp: 5, move_token: false };
    let lw = row_world(&[Some(shroomer), Some(bunny(2))]);
    let t = lw.sacrifice_hit(c(0, 0), RIGHT);
    assert_eq!(
        t.logical_events,
        vec![
            LogicalEvent::MoveInto { obj: shroomer, from: c(0, 0), to: c(1, 0) },
            LogicalEvent::Killed { obj: bunny(0), at: c(1, 0), damages: 2 },
        ]
    );
    assert_eq!(obj_at(&t.resulting_lw, 0, 0), None);
    assert_eq!(obj_at(&t.resulting_lw, 1, 0), None);
    assert!(!t.resulting_lw.has_player());
}

#[test]
fn heart_before_slime_needs_little_force() {
    // With no force the bunny eats the heart; with more force it shoves the
    // heart into the slime, which survives the hit, and the push fails.
    let slime = Obj::Slime { hp: 5, move_token: false };
    let lw = row_world(&[Some(bunny(3)), Some(Obj::Heart), Some(slime), None]);
    let weak = lw.what_would_happen_if_try_to_move(c(0, 0), RIGHT, 0);
    assert!(weak.success);
    assert_eq!(weak.final_interaction, Some(InteractionConsequences::Heal));
    let strong = lw.what_would_happen_if_try_to_move(c(0, 0), RIGHT, 2);
    assert!(!strong.success);
    assert_eq!(strong.final_interaction, Some(InteractionConsequences::NonLethalHit { damages: 0 }));
}
