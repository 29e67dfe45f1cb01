//! The classic sample room: the baseline patrol visits 41 distinct
//! cells, and exactly 6 candidate positions force a loop.

use day6vis::parse::parse;
use day6vis::records::Guard;
use day6vis::room::Pos;
use day6vis::runner::{
    count_loops, enumerate_candidates, evaluate_candidate, part1, part2, run_all, simulate,
};

const SAMPLE: &str = "....#.....\n.........#\n..........\n..#.......\n.......#..\n..........\n.#..^.....\n........#.\n#.........\n......#...\n";

#[test]
fn sample_baseline_visits_41_cells() {
    let (room, rec, visited) = part1(String::from(SAMPLE)).unwrap();
    assert_eq!(visited, 41);
    assert!(!rec.is_loop);
    assert_eq!(room.to_check.len(), 40);
}

#[test]
fn sample_has_six_looping_candidates() {
    let room = parse(SAMPLE).unwrap();
    let (baseline, records, loops) = run_all(&room);
    assert!(!baseline.is_loop);
    assert_eq!(loops, 6);
    assert_eq!(records.len(), 40);
}

#[test]
fn sample_loop_count_is_order_independent() {
    let room = parse(SAMPLE).unwrap();
    let baseline = simulate(&room);
    let cands = enumerate_candidates(&baseline);
    let mut forward: Vec<Guard> = Vec::new();
    for (i, c) in cands.iter().enumerate() {
        forward.push(evaluate_candidate(&room, baseline.is_loop, *c, i + 1));
    }
    let mut backward: Vec<Guard> = Vec::new();
    for (i, c) in cands.iter().enumerate().rev() {
        backward.push(evaluate_candidate(&room, baseline.is_loop, *c, i + 1));
    }
    assert_eq!(count_loops(&forward), count_loops(&backward));
    assert_eq!(count_loops(&forward), 6);
}

#[test]
fn sample_part2_finds_the_known_loop_maker() {
    // placing an obstacle just left of the guard's start forces a loop
    let room = parse(SAMPLE).unwrap();
    let rec = part2(&room, false, 3, 6, 1);
    assert!(rec.is_loop);
    assert_eq!(rec.obstacle, Some(Pos { x: 3, y: 6 }));
    assert_eq!(rec.display_index, 1);
    // a candidate far off the patrol path changes nothing
    let rec2 = part2(&room, false, 0, 0, 2);
    assert!(!rec2.is_loop);
}

#[test]
fn candidate_on_existing_obstacle_is_skipped() {
    let room = parse(SAMPLE).unwrap();
    // text row 0, column 4 already holds an obstacle
    let rec = evaluate_candidate(&room, false, Pos { x: 4, y: 0 }, 1);
    assert_eq!(rec.trail.len(), 0);
    assert!(!rec.is_loop);
    let rec_loopy = evaluate_candidate(&room, true, Pos { x: 4, y: 0 }, 1);
    assert_eq!(rec_loopy.trail.len(), 0);
    assert!(rec_loopy.is_loop);
}

#[test]
fn duplicate_obstacle_positions_count_once() {
    let room = parse(SAMPLE).unwrap();
    let one = evaluate_candidate(&room, false, Pos { x: 3, y: 6 }, 1);
    let two = evaluate_candidate(&room, false, Pos { x: 3, y: 6 }, 2);
    assert!(one.is_loop && two.is_loop);
    let records = vec![one, two];
    assert_eq!(count_loops(&records), 1);
}

#[test]
fn candidates_exclude_start_and_repeats() {
    let room = parse(".#..\n.^.#\n#...\n..#.").unwrap();
    let baseline = simulate(&room);
    assert!(baseline.is_loop);
    let cands = enumerate_candidates(&baseline);
    // distinct visited cells are (1,1) (2,1) (2,2) (1,2); the start is dropped
    assert_eq!(cands.len(), 3);
    assert_eq!(cands[0], Pos { x: 2, y: 1 });
    assert_eq!(cands[1], Pos { x: 2, y: 2 });
    assert_eq!(cands[2], Pos { x: 1, y: 2 });
}

#[test]
fn out_of_bounds_candidate_repeats_the_baseline() {
    let room = parse("...\n...\n.^.").unwrap();
    let rec = evaluate_candidate(&room, false, Pos { x: 9, y: 9 }, 1);
    assert!(!rec.is_loop);
    assert_eq!(rec.trail.len(), 3);
    assert_eq!(rec.obstacle, Some(Pos { x: 9, y: 9 }));
}

#[test]
fn part1_reports_parse_errors_as_text() {
    assert_eq!(part1(String::from("..")).unwrap_err(), "Room has no guards.");
    assert_eq!(part1(String::from("^v")).unwrap_err(), "Room has more than one guard.");
    assert_eq!(part1(String::from("^.\n...")).unwrap_err(), "Room is not rectangular.");
}
