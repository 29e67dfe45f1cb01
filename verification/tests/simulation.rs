//! The step function and the simulation loop on small rooms.

use day6vis::parse::parse;
use day6vis::room::{Direction, Pos, RoomSpace, TrailStep};
use day6vis::runner::simulate;
use day6vis::step::{get_newspace, step, turn_right, StepOutcome};

#[test]
fn turn_right_cycles_clockwise() {
    assert_eq!(turn_right(Direction::Up), Direction::Right);
    assert_eq!(turn_right(Direction::Right), Direction::Down);
    assert_eq!(turn_right(Direction::Down), Direction::Left);
    assert_eq!(turn_right(Direction::Left), Direction::Up);
}

#[test]
fn newspace_moves_one_cell_or_leaves() {
    let room = parse("^..\n...").unwrap();
    let p = Pos { x: 1, y: 0 };
    assert_eq!(get_newspace(&room, p, Direction::Up), None);
    assert_eq!(get_newspace(&room, p, Direction::Down), Some(Pos { x: 1, y: 1 }));
    assert_eq!(get_newspace(&room, p, Direction::Left), Some(Pos { x: 0, y: 0 }));
    assert_eq!(get_newspace(&room, p, Direction::Right), Some(Pos { x: 2, y: 0 }));
}

#[test]
fn step_moves_forward_into_free_cell() {
    let room = parse("...\n.^.\n...").unwrap();
    let s = TrailStep { dir: Direction::Up, pos: Pos { x: 1, y: 1 } };
    assert_eq!(
        step(&room, s),
        StepOutcome::Moved(TrailStep { dir: Direction::Up, pos: Pos { x: 1, y: 0 } })
    );
}

#[test]
fn step_turns_in_place_before_an_obstacle() {
    let room = parse(".#.\n.^.\n...").unwrap();
    let s = TrailStep { dir: Direction::Up, pos: Pos { x: 1, y: 1 } };
    // the obstacle ahead makes the guard turn clockwise without moving
    assert_eq!(
        step(&room, s),
        StepOutcome::Moved(TrailStep { dir: Direction::Right, pos: Pos { x: 1, y: 1 } })
    );
}

#[test]
fn step_exits_at_the_edge() {
    let room = parse("^").unwrap();
    let s = TrailStep { dir: Direction::Up, pos: Pos { x: 0, y: 0 } };
    assert_eq!(step(&room, s), StepOutcome::Exited);
}

#[test]
fn step_reports_trapped_when_walled_in() {
    let room = parse(".#.\n#^#\n.#.").unwrap();
    let s = TrailStep { dir: Direction::Up, pos: Pos { x: 1, y: 1 } };
    assert_eq!(step(&room, s), StepOutcome::Trapped);
}

#[test]
fn simulate_straight_walk_exits() {
    let room = parse("...\n...\n.^.").unwrap();
    let rec = simulate(&room);
    assert!(!rec.is_loop);
    assert_eq!(rec.trail.len(), 3);
    assert_eq!(rec.trail.get(0), TrailStep { dir: Direction::Up, pos: Pos { x: 1, y: 2 } });
    assert_eq!(rec.trail.get(1), TrailStep { dir: Direction::Up, pos: Pos { x: 1, y: 1 } });
    assert_eq!(rec.trail.get(2), TrailStep { dir: Direction::Up, pos: Pos { x: 1, y: 0 } });
    assert!(rec.obstacle.is_none());
    assert_eq!(rec.display_index, 0);
}

#[test]
fn trapped_guard_records_one_state_and_no_loop() {
    let room = parse(".#.\n#^#\n.#.").unwrap();
    let rec = simulate(&room);
    assert!(!rec.is_loop);
    assert_eq!(rec.trail.len(), 1);
    assert_eq!(rec.trail.get(0), TrailStep { dir: Direction::Up, pos: Pos { x: 1, y: 1 } });
}

#[test]
fn single_cell_room_records_one_state_and_no_loop() {
    let room = parse("^").unwrap();
    let rec = simulate(&room);
    assert!(!rec.is_loop);
    assert_eq!(rec.trail.len(), 1);
}

#[test]
fn square_circuit_is_detected_as_loop() {
    let room = parse(".#..\n.^.#\n#...\n..#.").unwrap();
    let rec = simulate(&room);
    assert!(rec.is_loop);
    assert_eq!(rec.trail.len(), 9);
    // the final state repeats the first
    assert_eq!(rec.trail.get(8), rec.trail.get(0));
    assert_eq!(rec.trail.get(0), TrailStep { dir: Direction::Up, pos: Pos { x: 1, y: 1 } });
}

#[test]
fn identical_rooms_produce_identical_trails() {
    let text = ".#..\n.^.#\n#...\n..#.";
    let r1 = parse(text).unwrap();
    let r2 = parse(text).unwrap();
    let a = simulate(&r1);
    let b = simulate(&r2);
    assert_eq!(a.is_loop, b.is_loop);
    assert_eq!(a.trail.len(), b.trail.len());
    for i in 0..a.trail.len() {
        assert_eq!(a.trail.get(i), b.trail.get(i));
    }
}

#[test]
fn trail_length_stays_within_four_per_cell() {
    for text in [
        "^",
        ".#..\n.^.#\n#...\n..#.",
        ".#.\n#^#\n.#.",
        "...\n...\n.^.",
    ] {
        let room = parse(text).unwrap();
        let rec = simulate(&room);
        assert!(rec.trail.len() <= 4 * room.width() * room.height());
    }
}

#[test]
fn no_two_consecutive_trail_states_are_equal() {
    let room = parse(".#..\n.^.#\n#...\n..#.").unwrap();
    let rec = simulate(&room);
    for i in 1..rec.trail.len() {
        assert_ne!(rec.trail.get(i - 1), rec.trail.get(i));
    }
}
