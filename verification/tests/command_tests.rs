use grid_robot::solve::pattern_command;
use grid_robot::command::{commands_to_string, to_decimal, Command};
use grid_robot::compress::compress;

fn f_run(n: usize) -> Command {
    Command::Iter(n, vec![Command::F])
}

#[test]
fn decimal_numerals() {
    assert_eq!(to_decimal(0), "0");
    assert_eq!(to_decimal(7), "7");
    assert_eq!(to_decimal(10), "10");
    assert_eq!(to_decimal(12345), "12345");
}

#[test]
fn plain_command_letters() {
    assert_eq!(Command::TurnR.to_string(), "R");
    assert_eq!(Command::TurnL.to_string(), "L");
    assert_eq!(Command::Turnr.to_string(), "r");
    assert_eq!(Command::Turnl.to_string(), "l");
    assert_eq!(Command::F.to_string(), "F");
}

#[test]
fn repetition_texts() {
    assert_eq!(f_run(3).to_string(), "3F");
    assert_eq!(Command::Iter(1, vec![Command::TurnR, Command::F]).to_string(), "RF");
    assert_eq!(Command::Iter(2, vec![Command::TurnR, Command::F]).to_string(), "2(RF)");
    assert_eq!(Command::Iter(12, vec![Command::TurnL]).to_string(), "12L");
    let nested = Command::Iter(
        80,
        vec![
            Command::Iter(2, vec![Command::TurnL, Command::Turnr, Command::Turnr, Command::F]),
            Command::Iter(1, vec![Command::TurnR, Command::Turnl, Command::Turnl, Command::F]),
        ],
    );
    assert_eq!(nested.to_string(), "80(2(LrrF)RllF)");
}

#[test]
fn list_texts() {
    let v = vec![Command::TurnR, f_run(2), Command::F];
    assert_eq!(commands_to_string(&v), "R2FF");
    assert_eq!(commands_to_string(&vec![]), "");
}

#[test]
fn clone_keeps_the_command() {
    let c = Command::Iter(3, vec![Command::TurnR, f_run(2)]);
    assert_eq!(c.clone().to_string(), c.to_string());
}

#[test]
fn compress_merges_runs() {
    let mut v = vec![Command::F, Command::F, Command::F];
    compress(&mut v);
    assert_eq!(commands_to_string(&v), "3F");
    assert_eq!(v.len(), 1);

    let mut v = vec![Command::F];
    compress(&mut v);
    assert_eq!(commands_to_string(&v), "F");

    let mut v = vec![Command::F, Command::TurnR, Command::F, Command::F];
    compress(&mut v);
    assert_eq!(commands_to_string(&v), "FR2F");

    let mut v = vec![f_run(2), Command::F, f_run(3), Command::TurnL, f_run(4)];
    compress(&mut v);
    assert_eq!(commands_to_string(&v), "6FL4F");
    assert_eq!(v.len(), 3);
}

#[test]
fn compress_is_idempotent_on_an_example() {
    let mut v = vec![Command::F, f_run(9), Command::TurnR, Command::F, Command::TurnL, Command::F, Command::F];
    compress(&mut v);
    let once = commands_to_string(&v);
    compress(&mut v);
    assert_eq!(commands_to_string(&v), once);
    assert_eq!(once, "10FRFL2F");
}

#[test]
fn pattern_texts() {
    assert_eq!(pattern_command(2, 1, 0).to_string(), "375(2(LrrF)RllF)");
    assert_eq!(pattern_command(1, 1, 1).to_string(), "562(RllFLrrF)");
    assert_eq!(pattern_command(7, 7, 0).to_string(), "80(7(LrrF)7(RllF))");
}

#[test]
fn compress_never_lengthens_the_text() {
    let cases: Vec<Vec<Command>> = vec![
        vec![Command::F, f_run(9)],
        vec![Command::F, Command::F],
        vec![f_run(99), f_run(1), Command::TurnR],
        vec![Command::TurnL, Command::F, Command::TurnR, f_run(5), f_run(5)],
    ];
    for mut v in cases {
        let before = commands_to_string(&v);
        compress(&mut v);
        let after = commands_to_string(&v);
        assert!(after.len() <= before.len(), "{} became {}", before, after);
    }
    let mut v = vec![Command::F, f_run(9)];
    compress(&mut v);
    assert_eq!(commands_to_string(&v), "10F");
}

#[test]
fn compress_handles_large_separate_runs() {
    let mut v = vec![f_run(usize::MAX), Command::TurnR, Command::F];
    compress(&mut v);
    assert_eq!(v, vec![f_run(usize::MAX), Command::TurnR, Command::F]);

    let mut v = vec![f_run(usize::MAX - 1), Command::F, Command::TurnL];
    compress(&mut v);
    assert_eq!(v, vec![f_run(usize::MAX), Command::TurnL]);
}
