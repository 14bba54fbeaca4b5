use std::collections::VecDeque;

use grid_robot::command::{commands_to_string, Command};
use grid_robot::field::{Input, Robot};
use grid_robot::geometry::{Coord, Direction};
use grid_robot::search::{distance_table, progress_transit, rotate_transit};
use grid_robot::solve::{build_distance_tables, pick_goal};
use grid_robot::table::{get3, new3};

fn rows(n: usize, len: usize) -> Vec<Vec<char>> {
    vec![vec!['0'; len]; n]
}

fn open_field() -> Input {
    Input::new(0, 0, rows(20, 19), rows(19, 20))
}

/// A field where the cell (19, 19) is closed off by walls on its left and top.
fn closed_corner() -> Input {
    let mut h = rows(20, 19);
    let mut v = rows(19, 20);
    h[19][18] = '1';
    v[18][19] = '1';
    Input::new(0, 0, h, v)
}

fn robot(x: isize, y: isize, d: Direction) -> Robot {
    Robot { pos: Coord::new((x, y)), direction: d }
}

#[test]
fn distance_table_costs() {
    let input = open_field();
    let start = robot(5, 5, Direction::Up);
    let t = distance_table(&input, start);
    assert_eq!(get3(&t, &start), 0);
    assert_eq!(get3(&t, &robot(5, 5, Direction::Right)), 1);
    assert_eq!(get3(&t, &robot(5, 5, Direction::Left)), 1);
    assert_eq!(get3(&t, &robot(5, 5, Direction::Down)), 2);
    assert_eq!(get3(&t, &robot(5, 4, Direction::Up)), 1);
    assert_eq!(get3(&t, &robot(5, 3, Direction::Up)), 2);
    // From the third step on, steps continue a run and cost nothing.
    assert_eq!(get3(&t, &robot(5, 2, Direction::Up)), 2);
    assert_eq!(get3(&t, &robot(5, 0, Direction::Up)), 2);
}

#[test]
fn distance_table_unreachable_cell() {
    let input = closed_corner();
    let t = distance_table(&input, robot(0, 0, Direction::Up));
    assert_eq!(get3(&t, &robot(19, 19, Direction::Up)), usize::MAX);
    assert_eq!(get3(&t, &robot(19, 19, Direction::Left)), usize::MAX);
    assert!(get3(&t, &robot(18, 19, Direction::Up)) < usize::MAX);
}

#[test]
fn rotate_transit_marks_and_queues() {
    let input = open_field();
    let mut dp = new3(false);
    let mut deque: VecDeque<(Robot, Vec<Command>)> = VecDeque::new();
    let now = robot(3, 3, Direction::Up);
    let history = vec![Command::F];
    rotate_transit(&now, Command::TurnL, &mut dp, &mut deque, &history, &input);
    assert!(get3(&dp, &robot(3, 3, Direction::Left)));
    assert_eq!(deque.len(), 1);
    assert_eq!(deque[0].0, robot(3, 3, Direction::Left));
    assert_eq!(commands_to_string(&deque[0].1), "FL");
    // A second visit changes nothing.
    rotate_transit(&now, Command::TurnL, &mut dp, &mut deque, &history, &input);
    assert_eq!(deque.len(), 1);
}

#[test]
fn progress_transit_extends_runs() {
    let input = open_field();
    let mut dp = new3(false);
    let mut deque: VecDeque<(Robot, Vec<Command>)> = VecDeque::new();
    let now = robot(3, 3, Direction::Up);
    progress_transit(&now, &mut dp, &mut deque, &vec![], &input);
    assert_eq!(commands_to_string(&deque[0].1), "F");
    progress_transit(&robot(3, 2, Direction::Up), &mut dp, &mut deque, &vec![Command::F], &input);
    assert_eq!(deque.len(), 2);
    assert_eq!(deque[1].0, robot(3, 1, Direction::Up));
    assert_eq!(commands_to_string(&deque[1].1), "2F");
    progress_transit(
        &robot(3, 1, Direction::Up),
        &mut dp,
        &mut deque,
        &vec![Command::TurnR, Command::Iter(2, vec![Command::F])],
        &input,
    );
    assert_eq!(deque.len(), 3);
    assert_eq!(deque[0].0, robot(3, 0, Direction::Up));
    assert_eq!(commands_to_string(&deque[0].1), "R3F");
    // The way up from the top row is closed: nothing happens.
    progress_transit(&robot(3, 0, Direction::Up), &mut dp, &mut deque, &vec![], &input);
    assert_eq!(deque.len(), 3);
}

#[test]
fn pick_goal_prefers_the_first_cheapest() {
    let input = open_field();
    let t = distance_table(&input, robot(0, 0, Direction::Up));
    let cands = vec![Coord::new((0, 5)), Coord::new((5, 0)), Coord::new((0, 3))];
    let g = pick_goal(&t, &cands);
    assert!(cands.contains(&g));
    let cands2 = vec![Coord::new((2, 2)), Coord::new((2, 2))];
    assert_eq!(pick_goal(&t, &cands2), Coord::new((2, 2)));
    let unreachable = distance_table(&closed_corner(), robot(0, 0, Direction::Up));
    assert_eq!(pick_goal(&unreachable, &vec![Coord::new((19, 19))]), Coord::new((-1, -1)));
}

#[test]
fn distance_tables_for_every_start() {
    let input = closed_corner();
    let all = build_distance_tables(&input);
    assert_eq!(all.len(), 20);
    let from = &all[19][19][0];
    assert_eq!(get3(from, &robot(19, 19, Direction::Up)), 0);
    assert_eq!(get3(from, &robot(0, 0, Direction::Up)), usize::MAX);
}

#[test]
fn progress_transit_after_a_long_run_and_a_turn() {
    let input = open_field();
    let mut dp = new3(false);
    let mut deque: VecDeque<(Robot, Vec<Command>)> = VecDeque::new();
    deque.push_back((robot(0, 0, Direction::Up), vec![]));
    let history = vec![Command::Iter(usize::MAX, vec![Command::F]), Command::TurnR];
    progress_transit(&robot(3, 3, Direction::Right), &mut dp, &mut deque, &history, &input);
    assert_eq!(deque.len(), 2);
    assert_eq!(deque[1].0, robot(4, 3, Direction::Right));
    assert_eq!(
        deque[1].1,
        vec![Command::Iter(usize::MAX, vec![Command::F]), Command::TurnR, Command::F]
    );
    assert!(get3(&dp, &robot(4, 3, Direction::Right)));
}

#[test]
fn distance_table_turn_then_run() {
    let input = open_field();
    let start = robot(5, 5, Direction::Up);
    let t = distance_table(&input, start);
    // A turn, then two paid steps; the rest of the run is free.
    assert_eq!(get3(&t, &robot(6, 5, Direction::Right)), 2);
    assert_eq!(get3(&t, &robot(7, 5, Direction::Right)), 3);
    assert_eq!(get3(&t, &robot(8, 5, Direction::Right)), 3);
    assert_eq!(get3(&t, &robot(19, 5, Direction::Right)), 3);
    // Down, behind the robot: two turns, then one step.
    assert_eq!(get3(&t, &robot(5, 6, Direction::Down)), 3);
}

#[test]
fn progress_transit_blocked_after_a_full_run() {
    let input = open_field();
    let mut dp = new3(false);
    let mut deque: VecDeque<(Robot, Vec<Command>)> = VecDeque::new();
    let history = vec![Command::Iter(usize::MAX, vec![Command::F])];
    // The way up from the top row is closed: nothing is queued or marked.
    progress_transit(&robot(3, 0, Direction::Up), &mut dp, &mut deque, &history, &input);
    assert_eq!(deque.len(), 0);
    assert!(!get3(&dp, &robot(3, 0, Direction::Up)));
}
