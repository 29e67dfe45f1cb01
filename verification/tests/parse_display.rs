//! Parsing, error reporting, and the render round trip.

use day6vis::parse::parse;
use day6vis::room::{Direction, Pos, Room, RoomError, RoomSpace};

#[test]
fn parse_single_guard_cell() {
    let room = parse("^").unwrap();
    assert_eq!(room.width(), 1);
    assert_eq!(room.height(), 1);
    assert_eq!(room.space_at(Pos { x: 0, y: 0 }), RoomSpace::Guard(Direction::Up));
    let start = room.find_guard().unwrap();
    assert_eq!(start.dir, Direction::Up);
    assert_eq!(start.pos, Pos { x: 0, y: 0 });
}

#[test]
fn parse_transposes_rows_and_columns() {
    // text row 0 is ".#", row 1 is "v."; the grid stores columns.
    let room = parse(".#\nv.").unwrap();
    assert_eq!(room.width(), 2);
    assert_eq!(room.height(), 2);
    assert_eq!(room.space_at(Pos { x: 0, y: 0 }), RoomSpace::Empty);
    assert_eq!(room.space_at(Pos { x: 1, y: 0 }), RoomSpace::Obstacle);
    assert_eq!(room.space_at(Pos { x: 0, y: 1 }), RoomSpace::Guard(Direction::Down));
    assert_eq!(room.space_at(Pos { x: 1, y: 1 }), RoomSpace::Empty);
}

#[test]
fn parse_all_four_facings() {
    for (text, dir) in [
        ("^", Direction::Up),
        ("v", Direction::Down),
        ("<", Direction::Left),
        (">", Direction::Right),
    ] {
        let room = parse(text).unwrap();
        assert_eq!(room.space_at(Pos { x: 0, y: 0 }), RoomSpace::Guard(dir));
    }
}

#[test]
fn parse_unknown_characters_are_empty() {
    let room = parse("a^b").unwrap();
    assert_eq!(room.space_at(Pos { x: 0, y: 0 }), RoomSpace::Empty);
    assert_eq!(room.space_at(Pos { x: 1, y: 0 }), RoomSpace::Guard(Direction::Up));
    assert_eq!(room.space_at(Pos { x: 2, y: 0 }), RoomSpace::Empty);
}

#[test]
fn parse_no_guard_is_rejected() {
    assert_eq!(parse("...\n.#.").unwrap_err(), RoomError::NoGuards);
    assert_eq!(parse("").unwrap_err(), RoomError::NoGuards);
}

#[test]
fn parse_two_guards_are_rejected() {
    assert_eq!(parse("^^").unwrap_err(), RoomError::ManyGuards);
    assert_eq!(parse("^.\n.v").unwrap_err(), RoomError::ManyGuards);
}

#[test]
fn parse_uneven_rows_are_rejected() {
    assert_eq!(parse("^.\n...").unwrap_err(), RoomError::Uneven);
}

#[test]
fn parse_error_precedence() {
    // a second guard wins over uneven rows; no guard wins over uneven rows
    assert_eq!(parse("^^\n...").unwrap_err(), RoomError::ManyGuards);
    assert_eq!(parse("..\n...").unwrap_err(), RoomError::NoGuards);
}

#[test]
fn parse_handles_crlf_line_endings() {
    let room = parse(".^\r\n#.\r\n").unwrap();
    assert_eq!(room.width(), 2);
    assert_eq!(room.height(), 2);
    assert_eq!(room.space_at(Pos { x: 1, y: 0 }), RoomSpace::Guard(Direction::Up));
    assert_eq!(room.space_at(Pos { x: 0, y: 1 }), RoomSpace::Obstacle);
}

#[test]
fn from_string_matches_parse() {
    let room = Room::from_string(String::from(".#^")).unwrap();
    assert_eq!(room.space_at(Pos { x: 1, y: 0 }), RoomSpace::Obstacle);
    assert_eq!(room.space_at(Pos { x: 2, y: 0 }), RoomSpace::Guard(Direction::Up));
    assert_eq!(Room::from_string(String::from("..")).unwrap_err(), RoomError::NoGuards);
}

#[test]
fn error_messages() {
    assert_eq!(RoomError::NoGuards.message(), "Room has no guards.");
    assert_eq!(RoomError::ManyGuards.message(), "Room has more than one guard.");
    assert_eq!(RoomError::Uneven.message(), "Room is not rectangular.");
}

#[test]
fn render_round_trip_reproduces_text() {
    let text = "....#.....\n.........#\n..........\n..#.......\n.......#..\n..........\n.#..^.....\n........#.\n#.........\n......#...\n";
    let room = parse(text).unwrap();
    assert_eq!(room.to_text(), text);
    let again = parse(&room.to_text()).unwrap();
    assert_eq!(again.to_text(), text);
}

#[test]
fn render_prints_visited_cells_as_empty() {
    let mut room = parse("^.\n..").unwrap();
    room.visit_space(Pos { x: 1, y: 0 });
    assert_eq!(room.to_text(), "^.\n..\n");
    let again = parse(&room.to_text()).unwrap();
    assert_eq!(again.space_at(Pos { x: 1, y: 0 }), RoomSpace::Empty);
}

#[test]
fn reset_restores_start_configuration() {
    let mut room = parse("^.\n.#").unwrap();
    room.visit_space(Pos { x: 0, y: 0 });
    room.add_guard(Pos { x: 1, y: 0 }, Direction::Down);
    room.reset();
    assert_eq!(room.space_at(Pos { x: 0, y: 0 }), RoomSpace::Guard(Direction::Up));
    assert_eq!(room.space_at(Pos { x: 1, y: 0 }), RoomSpace::Empty);
    assert_eq!(room.space_at(Pos { x: 1, y: 1 }), RoomSpace::Obstacle);
    assert_eq!(room.to_text(), "^.\n.#\n");
}

#[test]
fn mutators_change_single_cells() {
    let mut room = parse("^..").unwrap();
    room.add_obstacle(Pos { x: 2, y: 0 });
    assert_eq!(room.space_at(Pos { x: 2, y: 0 }), RoomSpace::Obstacle);
    room.visit_space(Pos { x: 1, y: 0 });
    assert_eq!(room.space_at(Pos { x: 1, y: 0 }), RoomSpace::Visited);
    assert_eq!(room.space_at(Pos { x: 0, y: 0 }), RoomSpace::Guard(Direction::Up));
}
