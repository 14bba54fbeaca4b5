use grid_robot::solve::{build_distance_tables, run_candidate};
use grid_robot::command::Command;
use grid_robot::field::{Input, Robot};
use grid_robot::geometry::{Coord, Direction};
use grid_robot::search::route_to;
use grid_robot::solve::{solve, SolveError};

fn rows(n: usize, len: usize) -> Vec<Vec<char>> {
    vec![vec!['0'; len]; n]
}

/// An independent reading of an answer: runs its text from the start and
/// returns the cells stood on, or `None` where it walks into a wall.
fn run_text(input: &Input, text: &str) -> Option<Vec<Vec<bool>>> {
    fn blocked(input: &Input, x: isize, y: isize, d: Direction) -> bool {
        let (nx, ny) = match d {
            Direction::Left => (x - 1, y),
            Direction::Right => (x + 1, y),
            Direction::Up => (x, y - 1),
            Direction::Down => (x, y + 1),
        };
        if nx < 0 || ny < 0 || nx >= 20 || ny >= 20 {
            return true;
        }
        match d {
            Direction::Left => input.h[ny as usize][nx as usize],
            Direction::Right => input.h[y as usize][x as usize],
            Direction::Up => input.v[ny as usize][nx as usize],
            Direction::Down => input.v[y as usize][x as usize],
        }
    }
    fn parse(chars: &[char], i: &mut usize) -> Vec<(usize, Vec<char>)> {
        // Flattens the text into plain letters.
        let mut out = Vec::new();
        while *i < chars.len() && chars[*i] != ')' {
            let mut n = 0usize;
            let mut has_n = false;
            while chars[*i].is_ascii_digit() {
                n = n * 10 + chars[*i].to_digit(10).unwrap() as usize;
                *i += 1;
                has_n = true;
            }
            let body: Vec<char> = if chars[*i] == '(' {
                *i += 1;
                let inner = parse(chars, i);
                *i += 1;
                inner.into_iter().flat_map(|(k, b)| std::iter::repeat(b).take(k).flatten()).collect()
            } else {
                let c = chars[*i];
                *i += 1;
                vec![c]
            };
            out.push((if has_n { n } else { 1 }, body));
        }
        out
    }
    let chars: Vec<char> = text.chars().collect();
    let mut i = 0;
    let parts = parse(&chars, &mut i);
    let mut x = input.start.x;
    let mut y = input.start.y;
    let mut d = Direction::Up;
    let mut gone = vec![vec![false; 20]; 20];
    gone[y as usize][x as usize] = true;
    for (k, body) in parts {
        for _ in 0..k {
            for &c in &body {
                match c {
                    'R' => d = d.rotate_right(),
                    'L' => d = d.rotate_left(),
                    'r' => {
                        if blocked(input, x, y, d) {
                            d = d.rotate_right()
                        }
                    },
                    'l' => {
                        if blocked(input, x, y, d) {
                            d = d.rotate_left()
                        }
                    },
                    'F' => {
                        if blocked(input, x, y, d) {
                            return None;
                        }
                        let dl = d.to_delta();
                        x += dl.x;
                        y += dl.y;
                        gone[y as usize][x as usize] = true;
                    },
                    _ => panic!("unexpected letter {}", c),
                }
            }
        }
    }
    Some(gone)
}

#[test]
fn solve_open_field_covers_every_cell() {
    let input = Input::new(0, 0, rows(20, 19), rows(19, 20));
    let answer = solve(&input).unwrap();
    assert!(answer.len() <= 5000);
    if answer.chars().all(|c| c == '0') {
        assert_eq!(answer.len(), 5000);
    } else {
        let gone = run_text(&input, &answer).expect("no move into a wall");
        assert!(gone.iter().all(|row| row.iter().all(|&b| b)));
    }
}

#[test]
fn solve_reports_a_closed_off_cell() {
    let mut h = rows(20, 19);
    let mut v = rows(19, 20);
    h[10][9] = '1';
    h[10][10] = '1';
    v[9][10] = '1';
    v[10][10] = '1';
    let input = Input::new(0, 0, h, v);
    match solve(&input) {
        Ok(s) => assert!(s.len() == 5000 && s.chars().all(|c| c == '0')),
        Err(e) => assert!(e == SolveError::Unreachable || e == SolveError::WallAhead),
    }
}

#[test]
fn solve_reports_a_wall_ahead() {
    // A dead end at the start: walls on the left, right and below, the
    // field's edge above... after the first left turn the robot faces a
    // wall on every side it tries.
    let mut h = rows(20, 19);
    let mut v = rows(19, 20);
    h[0][0] = '1';
    v[0][0] = '1';
    let input = Input::new(0, 0, h, v);
    assert_eq!(solve(&input), Err(SolveError::WallAhead));
}

#[test]
fn route_search_finds_and_misses() {
    let input = Input::new(0, 0, rows(20, 19), rows(19, 20));
    let start = Robot { pos: Coord::new((0, 0)), direction: Direction::Up };
    let (r, h) = route_to(&input, start, Coord::new((4, 0))).unwrap();
    assert_eq!(r.pos, Coord::new((4, 0)));
    let mut robot = start;
    for c in &h {
        match c {
            Command::Iter(n, _) => {
                for _ in 0..*n {
                    robot.do_command(&Command::F, &input);
                }
            },
            _ => robot.do_command(c, &input),
        }
    }
    assert_eq!(robot.pos, Coord::new((4, 0)));
    assert_eq!(route_to(&input, start, Coord::new((-1, -1))), None);
}

#[test]
fn candidate_outcomes() {
    let mut h = rows(20, 19);
    let mut v = rows(19, 20);
    h[0][0] = '1';
    v[0][0] = '1';
    let boxed = Input::new(0, 0, h, v);
    let tables = build_distance_tables(&boxed);
    assert_eq!(run_candidate(&boxed, &tables, 1, 1, 0), Err(SolveError::WallAhead));

    let open = Input::new(0, 0, rows(20, 19), rows(19, 20));
    let tables = build_distance_tables(&open);
    for (a, b, r) in [(1, 1, 0), (3, 2, 1), (7, 7, 0)] {
        match run_candidate(&open, &tables, a, b, r).unwrap() {
            Some(text) => {
                let gone = run_text(&open, &text).expect("no move into a wall");
                assert!(gone.iter().all(|row| row.iter().all(|&b| b)));
            },
            None => {},
        }
    }
}

#[test]
fn route_search_tries_the_left_turn_first() {
    let input = Input::new(0, 0, rows(20, 19), rows(19, 20));
    let start = Robot { pos: Coord::new((5, 5)), direction: Direction::Up };
    let (r, h) = route_to(&input, start, Coord::new((5, 6))).unwrap();
    assert_eq!(r, Robot { pos: Coord::new((5, 6)), direction: Direction::Down });
    assert_eq!(h, vec![Command::TurnL, Command::TurnL, Command::F]);
    let (_, h) = route_to(&input, start, Coord::new((6, 5))).unwrap();
    assert_eq!(h, vec![Command::TurnR, Command::F]);
}

#[test]
fn solve_keeps_the_first_shortest_candidate() {
    let input = Input::new(0, 0, rows(20, 19), rows(19, 20));
    let tables = build_distance_tables(&input);
    let mut best = "0".repeat(5000);
    for a in 1..=7 {
        for b in 1..=7 {
            for r in 0..=1 {
                if let Some(text) = run_candidate(&input, &tables, a, b, r).unwrap() {
                    if text.len() < best.len() {
                        best = text;
                    }
                }
            }
        }
    }
    assert_eq!(solve(&input).unwrap(), best);
}
