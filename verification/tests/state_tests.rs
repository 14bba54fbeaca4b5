use grid_robot::compress::compress;
use grid_robot::command::Command;
use grid_robot::field::{Input, Robot};
use grid_robot::geometry::{Coord, Direction};
use grid_robot::state::State;

fn rows(n: usize, len: usize) -> Vec<Vec<char>> {
    vec![vec!['0'; len]; n]
}

fn open_field(sy: usize, sx: usize) -> Input {
    Input::new(sy, sx, rows(20, 19), rows(19, 20))
}

#[test]
fn input_parses_walls() {
    let mut h = rows(20, 19);
    let mut v = rows(19, 20);
    h[3][4] = '1';
    v[5][6] = '1';
    let input = Input::new(2, 7, h, v);
    assert_eq!(input.start, Coord::new((7, 2)));
    assert_eq!(input.h.len(), 20);
    assert_eq!(input.h[0].len(), 19);
    assert_eq!(input.v.len(), 19);
    assert_eq!(input.v[0].len(), 20);
    assert!(input.h[3][4]);
    assert!(!input.h[4][3]);
    assert!(input.v[5][6]);
    assert!(!input.v[6][5]);
}

#[test]
fn robot_starts_facing_up() {
    let input = open_field(4, 9);
    let r = Robot::new(&input);
    assert_eq!(r.pos, Coord::new((9, 4)));
    assert_eq!(r.direction, Direction::Up);
}

#[test]
fn robot_progress_at_border_and_walls() {
    let mut h = rows(20, 19);
    let mut v = rows(19, 20);
    h[0][0] = '1';
    v[0][1] = '1';
    let input = Input::new(0, 0, h, v);
    let up = Robot { pos: Coord::new((0, 0)), direction: Direction::Up };
    assert!(!up.can_progress(&input));
    let right = Robot { pos: Coord::new((0, 0)), direction: Direction::Right };
    assert!(!right.can_progress(&input));
    let down = Robot { pos: Coord::new((0, 0)), direction: Direction::Down };
    assert!(down.can_progress(&input));
    let left_from = Robot { pos: Coord::new((1, 0)), direction: Direction::Left };
    assert!(!left_from.can_progress(&input));
    let up_from = Robot { pos: Coord::new((1, 1)), direction: Direction::Up };
    assert!(!up_from.can_progress(&input));
    let down_from = Robot { pos: Coord::new((1, 0)), direction: Direction::Down };
    assert!(!down_from.can_progress(&input));
}

#[test]
fn robot_commands() {
    let input = open_field(0, 0);
    let mut r = Robot::new(&input);
    r.do_command(&Command::Turnr, &input);
    assert_eq!(r.direction, Direction::Right);
    r.do_command(&Command::Turnr, &input);
    assert_eq!(r.direction, Direction::Right);
    r.do_command(&Command::F, &input);
    assert_eq!(r.pos, Coord::new((1, 0)));
    r.do_command(&Command::TurnL, &input);
    assert_eq!(r.direction, Direction::Up);
    r.do_command(&Command::Turnl, &input);
    assert_eq!(r.direction, Direction::Left);
    r.do_command(&Command::TurnR, &input);
    assert_eq!(r.direction, Direction::Up);
}

#[test]
fn state_new_marks_the_start() {
    let input = open_field(3, 5);
    let st = State::new(&input);
    assert_eq!(st.rest_grid_num, 399);
    assert_eq!(st.command_cnt, 0);
    assert!(st.gone[3][5]);
    assert!(!st.gone[5][3]);
    let cells = st.get_not_gone_grids();
    assert_eq!(cells.len(), 399);
    assert_eq!(cells[0], Coord::new((0, 0)));
    assert!(!cells.contains(&Coord::new((5, 3))));
    assert_eq!(cells[398], Coord::new((19, 19)));
}

#[test]
fn state_runs_a_repetition() {
    let input = open_field(19, 0);
    let mut st = State::new(&input);
    let c = Command::Iter(3, vec![Command::F]);
    st.do_command(&c, &input);
    assert_eq!(st.robot.pos, Coord::new((0, 16)));
    assert_eq!(st.rest_grid_num, 396);
    assert_eq!(st.command_cnt, 3);
    let back = Command::Iter(2, vec![Command::TurnR]);
    st.do_command(&back, &input);
    st.do_command(&Command::F, &input);
    assert_eq!(st.robot.pos, Coord::new((0, 17)));
    assert_eq!(st.rest_grid_num, 396);
    assert_eq!(st.command_cnt, 6);
}

#[test]
fn state_run_stops_at_a_wall() {
    let input = open_field(0, 0);
    let mut st = State::new(&input);
    let ok = st.run_command(&Command::F, &input);
    assert!(!ok);
    let ok = st.run_command(&Command::Iter(2, vec![Command::TurnR]), &input);
    assert!(ok);
    let ok = st.run_command(&Command::Iter(25, vec![Command::F]), &input);
    assert!(!ok);
    assert_eq!(st.robot.pos, Coord::new((0, 19)));
}

#[test]
fn not_gone_cells_empty_after_full_sweep() {
    let input = open_field(0, 0);
    let mut st = State::new(&input);
    // Snake through the field: down a column, step right, up the next column.
    st.do_command(&Command::Iter(2, vec![Command::TurnR]), &input);
    for col in 0..20 {
        st.do_command(&Command::Iter(19, vec![Command::F]), &input);
        if col < 19 {
            if col % 2 == 0 {
                st.do_command(&Command::TurnL, &input);
                st.do_command(&Command::F, &input);
                st.do_command(&Command::TurnL, &input);
            } else {
                st.do_command(&Command::TurnR, &input);
                st.do_command(&Command::F, &input);
                st.do_command(&Command::TurnR, &input);
            }
        }
    }
    assert_eq!(st.rest_grid_num, 0);
    assert!(st.get_not_gone_grids().is_empty());
}

#[test]
fn compress_keeps_what_the_commands_do() {
    let input = open_field(10, 10);
    let unmerged = || {
        vec![
            Command::F,
            Command::F,
            Command::TurnR,
            Command::Iter(2, vec![Command::F]),
            Command::F,
            Command::Turnl,
            Command::F,
        ]
    };
    let mut merged = unmerged();
    compress(&mut merged);
    assert_eq!(merged.len(), 5);
    let mut a = State::new(&input);
    for c in &unmerged() {
        a.do_command(c, &input);
    }
    let mut b = State::new(&input);
    for c in &merged {
        b.do_command(c, &input);
    }
    assert_eq!(a.robot, b.robot);
    assert_eq!(a.gone, b.gone);
    assert_eq!(a.rest_grid_num, b.rest_grid_num);
    assert_eq!(a.command_cnt, b.command_cnt);
    assert_eq!(a.robot.pos, Coord::new((14, 8)));
}

#[test]
fn input_ignores_characters_past_the_field() {
    let h = vec![vec!['1'; 25]; 22];
    let v = vec![vec!['0'; 30]; 19];
    let input = Input::new(1, 1, h, v);
    assert_eq!(input.h.len(), 20);
    assert!(input.h.iter().all(|row| row.len() == 19 && row.iter().all(|&w| w)));
    assert!(input.v.iter().all(|row| row.len() == 20 && row.iter().all(|&w| !w)));
}

#[test]
fn not_gone_cells_count_the_rest() {
    let input = open_field(10, 10);
    let mut st = State::new(&input);
    st.do_command(&Command::Iter(4, vec![Command::F]), &input);
    st.do_command(&Command::TurnL, &input);
    st.do_command(&Command::Iter(3, vec![Command::F]), &input);
    assert_eq!(st.rest_grid_num, 392);
    assert_eq!(st.get_not_gone_grids().len(), st.rest_grid_num);
    st.do_command(&Command::Iter(0, vec![Command::F]), &input);
    st.do_command(&Command::Iter(5, vec![]), &input);
    assert_eq!(st.rest_grid_num, 392);
    assert_eq!(st.command_cnt, 8);
}

#[test]
fn quarter_turns_off_the_field() {
    let input = open_field(0, 0);
    let mut r = Robot { pos: Coord::new((-3, 25)), direction: Direction::Up };
    r.do_command(&Command::TurnR, &input);
    assert_eq!(r.direction, Direction::Right);
    r.do_command(&Command::TurnL, &input);
    r.do_command(&Command::TurnL, &input);
    assert_eq!(r.direction, Direction::Left);
    assert_eq!(r.pos, Coord::new((-3, 25)));
}
