use pushdg::animation::{DepthLayer, HitAnimation, TimeInterval};
use pushdg::coords::{four_directions, Coord};
use pushdg::events::{LogicalEvent, LogicalTransition};
use pushdg::generation::{filled_rect, generate_level};
use pushdg::obj::{Obj, Tile};
use pushdg::world::LogicalWorld;

fn c(x: i32, y: i32) -> Coord {
    Coord::new(x, y)
}

fn bunny() -> Obj {
    Obj::Bunny { hp: 7, max_hp: 7 }
}

/// A floor room spanning `-r ..= r` on both axes.
fn room(r: i32) -> LogicalWorld {
    let mut lw = LogicalWorld::new_empty();
    for y in -r..=r {
        for x in -r..=r {
            lw.place_tile(c(x, y), Tile::floor());
        }
    }
    lw
}

fn obj_at(lw: &LogicalWorld, x: i32, y: i32) -> Option<Obj> {
    lw.obj(c(x, y)).copied()
}

#[test]
fn player_move_without_player_does_nothing() {
    let lw = room(1);
    let t = lw.player_move(c(1, 0));
    assert!(t.logical_events.is_empty());
    assert_eq!(t.resulting_lw.tiles(), lw.tiles());
}

#[test]
fn player_move_walls_in_and_sees() {
    let mut lw = room(0);
    lw.place_tile(c(0, 0), Tile::obj(bunny()));
    lw.place_tile(c(1, 0), Tile::floor());
    let t = lw.player_move(c(1, 0));
    assert_eq!(t.logical_events, vec![LogicalEvent::Move { from: c(0, 0), to: c(1, 0) }]);
    assert_eq!(t.resulting_lw.player_coords(), Some(c(1, 0)));
    // Both floor tiles are now surrounded by walls: 3 × 4 tiles in all.
    assert_eq!(t.resulting_lw.tiles().len(), 12);
    assert_eq!(obj_at(&t.resulting_lw, 2, 1), Some(Obj::Wall));
    assert!(t.resulting_lw.tile(c(1, 0)).unwrap().visible);
    assert!(t.resulting_lw.tile(c(2, 0)).unwrap().visible);
}

#[test]
fn walls_surround_floor() {
    let lw = room(0).generated_walls_outside();
    assert_eq!(lw.tiles().len(), 9);
    for y in -1..=1 {
        for x in -1..=1 {
            if (x, y) != (0, 0) {
                assert_eq!(obj_at(&lw, x, y), Some(Obj::Wall));
            }
        }
    }
    assert_eq!(obj_at(&lw, 0, 0), None);
    // Walls are not themselves walled in.
    assert_eq!(lw.clone().generated_walls_outside().tiles().len(), 9);
}

#[test]
fn own_tile_visible_behind_walls() {
    let mut lw = LogicalWorld::new_empty();
    lw.place_tile(c(0, 0), Tile::obj(bunny()));
    for d in four_directions() {
        lw.place_tile(d, Tile::obj(Obj::Wall));
    }
    lw.place_tile(c(5, 0), Tile::floor());
    let lw = lw.updated_visibility();
    assert!(lw.tile(c(0, 0)).unwrap().visible);
    assert!(lw.tile(c(1, 0)).unwrap().visible);
    assert!(!lw.tile(c(5, 0)).unwrap().visible);
}

#[test]
fn sight_radius_is_six_and_a_half() {
    let mut lw = room(8);
    lw.place_tile(c(0, 0), Tile::obj(bunny()));
    let lw = lw.updated_visibility();
    // 6² + 2² = 40 and 6² + 3² = 45 around the bound 42.25.
    assert!(lw.tile(c(6, 2)).unwrap().visible);
    assert!(!lw.tile(c(6, 3)).unwrap().visible);
    assert!(lw.tile(c(0, 6)).unwrap().visible);
    assert!(!lw.tile(c(0, 7)).unwrap().visible);
}

#[test]
fn wall_hides_what_is_behind() {
    let mut lw = room(4);
    lw.place_tile(c(0, 0), Tile::obj(bunny()));
    lw.place_tile(c(2, 0), Tile::obj(Obj::Wall));
    let lw = lw.updated_visibility();
    assert!(lw.tile(c(1, 0)).unwrap().visible);
    assert!(lw.tile(c(2, 0)).unwrap().visible);
    assert!(!lw.tile(c(3, 0)).unwrap().visible);
    assert!(!lw.tile(c(4, 0)).unwrap().visible);
    assert!(lw.tile(c(0, 3)).unwrap().visible);
}

#[test]
fn vision_gem_sees_through_walls() {
    let mut lw = room(4);
    lw.place_tile(c(0, 0), Tile::obj(bunny()));
    lw.place_tile(c(0, 1), Tile::obj(Obj::VisionGem));
    lw.place_tile(c(2, 0), Tile::obj(Obj::Wall));
    let lw = lw.updated_visibility();
    assert!(lw.tile(c(3, 0)).unwrap().visible);
    assert!(lw.tile(c(4, 0)).unwrap().visible);
}

#[test]
fn no_player_sees_everything() {
    let mut lw = room(2);
    lw.place_tile(c(1, 0), Tile::obj(Obj::Wall));
    let lw = lw.updated_visibility();
    for (_, tile) in lw.tiles() {
        assert!(tile.visible);
    }
}

#[test]
fn transition_keeps_events_through_post_processing() {
    let mut lw = room(1);
    lw.place_tile(c(0, 0), Tile::obj(bunny()));
    let t = LogicalTransition {
        logical_events: vec![LogicalEvent::Hit { at: c(0, 0), damages: 1 }],
        resulting_lw: lw,
    };
    let t = t.generated_walls_outside().updated_visibility();
    assert_eq!(t.logical_events, vec![LogicalEvent::Hit { at: c(0, 0), damages: 1 }]);
    assert_eq!(t.resulting_lw.tiles().len(), 25);
    let empty = LogicalTransition::from(LogicalWorld::new_empty());
    assert!(empty.logical_events.is_empty());
}

#[test]
fn tokens_go_to_agents_only() {
    let mut lw = room(2);
    lw.place_tile(c(0, 0), Tile::obj(bunny()));
    lw.place_tile(c(2, 2), Tile::obj(Obj::Slime { hp: 5, move_token: false }));
    lw.place_tile(c(1, 1), Tile::obj(Obj::Rock));
    lw.give_move_token_to_agents();
    assert_eq!(obj_at(&lw, 2, 2), Some(Obj::Slime { hp: 5, move_token: true }));
    assert_eq!(obj_at(&lw, 1, 1), Some(Obj::Rock));
    assert_eq!(obj_at(&lw, 0, 0), Some(bunny()));
}

#[test]
fn no_token_no_agent_move() {
    let mut lw = room(2);
    lw.place_tile(c(0, 0), Tile::obj(bunny()));
    lw.place_tile(c(2, 0), Tile::obj(Obj::Slime { hp: 5, move_token: false }));
    assert!(lw.handle_move_for_one_agent().is_none());
}

#[test]
fn slime_chases_player_in_line() {
    let mut lw = room(3);
    lw.place_tile(c(0, 0), Tile::obj(bunny()));
    lw.place_tile(c(3, 0), Tile::obj(Obj::Slime { hp: 5, move_token: false }));
    lw.give_move_token_to_agents();
    let t = lw.handle_move_for_one_agent().unwrap();
    assert_eq!(t.logical_events, vec![LogicalEvent::Move { from: c(3, 0), to: c(2, 0) }]);
    assert_eq!(obj_at(&t.resulting_lw, 2, 0), Some(Obj::Slime { hp: 5, move_token: false }));
    let mut after = t.resulting_lw;
    assert!(after.handle_move_for_one_agent().is_none());
}

#[test]
fn slime_off_line_waits_and_uses_token() {
    let mut lw = room(3);
    lw.place_tile(c(0, 0), Tile::obj(bunny()));
    lw.place_tile(c(2, 1), Tile::obj(Obj::Slime { hp: 5, move_token: true }));
    let t = lw.handle_move_for_one_agent().unwrap();
    assert!(t.logical_events.is_empty());
    assert_eq!(obj_at(&t.resulting_lw, 2, 1), Some(Obj::Slime { hp: 5, move_token: false }));
    assert_eq!(obj_at(&lw, 2, 1), Some(Obj::Slime { hp: 5, move_token: true }));
}

#[test]
fn slime_does_not_see_through_wall() {
    let mut lw = room(3);
    lw.place_tile(c(0, 0), Tile::obj(bunny()));
    lw.place_tile(c(1, 0), Tile::obj(Obj::Wall));
    lw.place_tile(c(3, 0), Tile::obj(Obj::Slime { hp: 5, move_token: false }));
    assert_eq!(lw.ai_decision(c(3, 0)), None);
    lw.place_tile(c(1, 0), Tile::floor());
    assert_eq!(lw.ai_decision(c(3, 0)), Some(c(-1, 0)));
    lw.place_tile(c(2, 0), Tile::obj(Obj::Shroomer { hp: 5, move_token: false }));
    assert_eq!(lw.ai_decision(c(3, 0)), None);
}

#[test]
fn shroom_attacks_adjacent_player() {
    let mut lw = room(2);
    lw.place_tile(c(0, 0), Tile::obj(bunny()));
    lw.place_tile(c(0, 1), Tile::obj(Obj::Shroom { move_token: true }));
    let t = lw.handle_move_for_one_agent().unwrap();
    assert_eq!(
        t.logical_events,
        vec![
            LogicalEvent::MoveInto { obj: Obj::Shroom { move_token: false }, from: c(0, 1), to: c(0, 0) },
            LogicalEvent::Hit { at: c(0, 0), damages: 1 },
        ]
    );
    assert_eq!(obj_at(&t.resulting_lw, 0, 0), Some(Obj::Bunny { hp: 6, max_hp: 7 }));
    assert_eq!(obj_at(&t.resulting_lw, 0, 1), None);
    assert_eq!(lw.shroom_ai_decision(c(0, 1)), Some(c(0, -1)));
}

#[test]
fn shroom_far_from_player_waits() {
    let mut lw = room(2);
    lw.place_tile(c(0, 0), Tile::obj(bunny()));
    lw.place_tile(c(1, 1), Tile::obj(Obj::Shroom { move_token: false }));
    assert_eq!(lw.shroom_ai_decision(c(1, 1)), None);
}

#[test]
fn shroomer_next_to_player_sacrifices_itself() {
    let mut lw = room(2);
    lw.place_tile(c(0, 0), Tile::obj(bunny()));
    lw.place_tile(c(1, 0), Tile::obj(Obj::Shroomer { hp: 5, move_token: true }));
    let t = lw.handle_move_for_one_agent().unwrap();
    assert_eq!(t.logical_events[1], LogicalEvent::Hit { at: c(0, 0), damages: 2 });
    assert_eq!(obj_at(&t.resulting_lw, 1, 0), None);
}

#[test]
fn fish_turns_back_at_obstacle() {
    let mut lw = room(2);
    lw.place_tile(c(-2, -2), Tile::obj(bunny()));
    lw.place_tile(c(0, 0), Tile::obj(Obj::Fish { direction: c(1, 0), move_token: true }));
    lw.place_tile(c(1, 0), Tile::obj(Obj::Wall));
    assert_eq!(lw.fish_ai_decision(c(0, 0)), Some(c(-1, 0)));
    let t = lw.handle_move_for_one_agent().unwrap();
    assert_eq!(t.logical_events, vec![LogicalEvent::Move { from: c(0, 0), to: c(-1, 0) }]);
    assert_eq!(
        obj_at(&t.resulting_lw, -1, 0),
        Some(Obj::Fish { direction: c(-1, 0), move_token: false })
    );
    lw.place_tile(c(1, 0), Tile::floor());
    assert_eq!(lw.fish_ai_decision(c(0, 0)), Some(c(1, 0)));
}

#[test]
fn random_turn_order_reaches_every_agent() {
    let mut lw = room(3);
    lw.place_tile(c(0, 0), Tile::obj(bunny()));
    lw.place_tile(c(3, 3), Tile::obj(Obj::Slime { hp: 5, move_token: true }));
    lw.place_tile(c(-3, -3), Tile::obj(Obj::Slime { hp: 5, move_token: true }));
    let mut seen_first = [false, false];
    for _ in 0..200 {
        let t = lw.handle_move_for_one_agent().unwrap();
        if obj_at(&t.resulting_lw, 3, 3) == Some(Obj::Slime { hp: 5, move_token: false }) {
            seen_first[0] = true;
        } else {
            seen_first[1] = true;
        }
    }
    assert_eq!(seen_first, [true, true]);
}

#[test]
fn turn_order_follows_given_order() {
    let mut lw = room(3);
    lw.place_tile(c(0, 0), Tile::obj(bunny()));
    lw.place_tile(c(3, 3), Tile::obj(Obj::Slime { hp: 5, move_token: true }));
    lw.place_tile(c(-3, -3), Tile::obj(Obj::Slime { hp: 5, move_token: true }));
    let order = vec![c(1, 1), c(-3, -3), c(3, 3)];
    let t = lw.handle_move_for_first_agent_in(&order).unwrap();
    assert_eq!(obj_at(&t.resulting_lw, -3, -3), Some(Obj::Slime { hp: 5, move_token: false }));
    assert_eq!(obj_at(&t.resulting_lw, 3, 3), Some(Obj::Slime { hp: 5, move_token: true }));
    assert!(lw.handle_move_for_first_agent_in(&vec![c(0, 0), c(1, 1)]).is_none());
}

#[test]
fn filled_rect_lists_rows_in_order() {
    assert_eq!(
        filled_rect(c(1, 2), c(2, 2)),
        vec![c(1, 2), c(2, 2), c(1, 3), c(2, 3)]
    );
    assert!(filled_rect(c(0, 0), c(0, 3)).is_empty());
}

#[test]
fn generated_level_has_player_and_loot() {
    let lw = generate_level();
    assert!(lw.has_player());
    assert_eq!(lw.redo_count, 3);
    assert_eq!(lw.max_redo_count, 9);
    let tiles = lw.tiles();
    let bunnies = tiles.iter().filter(|(_, t)| matches!(t.obj, Some(Obj::Bunny { .. }))).count();
    assert_eq!(bunnies, 1);
    let exits = tiles.iter().filter(|(_, t)| t.obj == Some(Obj::Exit)).count();
    assert!(exits >= 1 && exits <= 3);
    let loot = tiles
        .iter()
        .filter(|(_, t)| matches!(t.obj, Some(Obj::Rock) | Some(Obj::Slime { .. })))
        .count();
    assert!(loot > 0);
}

#[test]
fn depth_layers_order() {
    assert_eq!(DepthLayer::Floor.to_z_value(), 1);
    assert_eq!(DepthLayer::Obj.to_z_value(), 2);
    assert_eq!(DepthLayer::AnimatedObj.to_z_value(), 3);
    assert_eq!(DepthLayer::TemporaryText.to_z_value(), 4);
    assert_eq!(DepthLayer::Interface.to_z_value(), 5);
}

#[test]
fn hit_animation_lasts_a_moment() {
    assert_eq!(HitAnimation::new().time_interval.duration_micros, 150_000);
    assert_eq!(TimeInterval::with_duration(50_000).duration_micros, 50_000);
}

#[test]
fn redo_restores_previous_world_for_one_redo() {
    let mut before = room(1);
    before.place_tile(c(0, 0), Tile::obj(bunny()));
    let after = before.player_move(c(1, 0)).resulting_lw;
    let mut previous = vec![before.clone()];
    let back = pushdg::turns::redo(&after, &mut previous).unwrap();
    assert!(previous.is_empty());
    assert_eq!(back.redo_count, 2);
    assert_eq!(back.player_coords(), Some(c(0, 0)));
    assert!(pushdg::turns::redo(&back, &mut previous).is_none());
}

#[test]
fn redo_needs_a_redo_left() {
    let mut before = room(1);
    before.place_tile(c(0, 0), Tile::obj(bunny()));
    let mut after = before.player_move(c(1, 0)).resulting_lw;
    after.redo_count = 0;
    let mut previous = vec![before];
    assert!(pushdg::turns::redo(&after, &mut previous).is_none());
    assert_eq!(previous.len(), 1);
}
