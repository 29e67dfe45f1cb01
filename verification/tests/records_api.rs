//! The record containers: trail cursors, sorting, room lookup, and
//! deduplication.

use day6vis::parse::parse;
use day6vis::records::{p2_loaded, AllGuards, AllRooms, Guard};
use day6vis::room::{Direction, Pos, TrailStep};
use day6vis::runner::deduplicate_vec;
use day6vis::sim::Trail;

fn step_at(x: usize, y: usize) -> TrailStep {
    TrailStep { dir: Direction::Up, pos: Pos { x, y } }
}

fn three_step_guard() -> Guard {
    let mut trail = Trail::new();
    trail.push(step_at(0, 2));
    trail.push(step_at(0, 1));
    trail.push(step_at(0, 0));
    Guard::new(trail, None, false, 0)
}

#[test]
fn cursor_starts_at_the_first_state() {
    let g = three_step_guard();
    assert_eq!(g.get_loc(), Some(step_at(0, 2)));
}

#[test]
fn advance_walks_the_trail_and_sticks_at_the_end() {
    let mut g = three_step_guard();
    assert_eq!(g.advance(), Some(step_at(0, 1)));
    assert_eq!(g.advance(), Some(step_at(0, 0)));
    // advancing from the last state reports that state once more
    assert_eq!(g.advance(), Some(step_at(0, 0)));
    // past the end nothing is reported
    assert_eq!(g.advance(), None);
    assert_eq!(g.get_loc(), Some(step_at(0, 0)));
}

#[test]
fn retreat_walks_backwards_and_stops_at_the_start() {
    let mut g = three_step_guard();
    assert_eq!(g.retreat(), None);
    g.advance();
    g.advance();
    assert_eq!(g.retreat(), Some(step_at(0, 1)));
    assert_eq!(g.retreat(), Some(step_at(0, 2)));
    assert_eq!(g.retreat(), None);
}

#[test]
fn reset_returns_the_cursor_to_the_start() {
    let mut g = three_step_guard();
    g.advance();
    g.advance();
    g.reset();
    assert_eq!(g.get_loc(), Some(step_at(0, 2)));
}

#[test]
fn empty_trail_has_no_location() {
    let g = Guard::new(Trail::new(), Some(Pos { x: 1, y: 1 }), true, 3);
    assert_eq!(g.get_loc(), None);
    assert_eq!(g.obstacle, Some(Pos { x: 1, y: 1 }));
    assert!(g.is_loop);
    assert_eq!(g.display_index, 3);
}

#[test]
fn sort_by_idx_orders_records() {
    let mut all = AllGuards::new();
    for idx in [2usize, 0, 1] {
        all.push(Guard::new(Trail::new(), None, false, idx));
    }
    all.sort_by_idx();
    assert_eq!(all.len(), 3);
    assert_eq!(all.get(0).display_index, 0);
    assert_eq!(all.get(1).display_index, 1);
    assert_eq!(all.get(2).display_index, 2);
}

#[test]
fn all_rooms_finds_entries_by_room_index() {
    let mut rooms = AllRooms::new();
    let mut a = parse("^.").unwrap();
    a.index = 7;
    let b = parse("v.").unwrap();
    rooms.push((a, AllGuards::new()));
    rooms.push((b, AllGuards::new()));
    assert!(rooms.get_room(None).is_none());
    assert!(rooms.get_room(Some(3)).is_none());
    let found = rooms.get_room(Some(7)).unwrap();
    assert_eq!(found.0.index, 7);
    let zero = rooms.get_room(Some(0)).unwrap();
    assert_eq!(zero.0.index, 0);
}

#[test]
fn deduplicate_keeps_first_occurrences_in_order() {
    let input = vec![
        Pos { x: 1, y: 1 },
        Pos { x: 2, y: 2 },
        Pos { x: 1, y: 1 },
        Pos { x: 3, y: 3 },
        Pos { x: 2, y: 2 },
    ];
    let out = deduplicate_vec(input);
    assert_eq!(out, vec![Pos { x: 1, y: 1 }, Pos { x: 2, y: 2 }, Pos { x: 3, y: 3 }]);
}

#[test]
fn deduplicate_of_empty_is_empty() {
    let out = deduplicate_vec(Vec::new());
    assert!(out.is_empty());
}

#[test]
fn p2_loaded_compares_candidates_with_records() {
    let mut room = parse("^.").unwrap();
    room.to_check = vec![Pos { x: 1, y: 0 }, Pos { x: 0, y: 1 }];
    let mut guards = AllGuards::new();
    assert!(!p2_loaded(&room, &guards));
    guards.push(Guard::new(Trail::new(), None, false, 0));
    assert!(!p2_loaded(&room, &guards));
    guards.push(Guard::new(Trail::new(), None, false, 1));
    assert!(p2_loaded(&room, &guards));
}

#[test]
fn cloned_rooms_are_independent() {
    let original = parse("^#.").unwrap();
    let mut copy = original.clone();
    copy.add_obstacle(Pos { x: 2, y: 0 });
    assert_eq!(original.to_text(), "^#.\n");
    assert_eq!(copy.to_text(), "^##\n");
}
