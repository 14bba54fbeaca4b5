use grid_robot::geometry::{Coord, Direction, N};

#[test]
fn coord_new_and_pair() {
    let c = Coord::new((3, -4));
    assert_eq!(c.x, 3);
    assert_eq!(c.y, -4);
    assert_eq!(c.to_pair(), (3, -4));
    let d = Coord::from_usize_pair((7, 11));
    assert_eq!(d, Coord { x: 7, y: 11 });
    assert_eq!(Coord::from_usize_pair((usize::MAX, 0)), Coord { x: -1, y: 0 });
}

#[test]
fn coord_in_field_edges() {
    assert!(Coord::new((0, 0)).in_field());
    assert!(Coord::new((19, 19)).in_field());
    assert!(!Coord::new((20, 0)).in_field());
    assert!(!Coord::new((0, 20)).in_field());
    assert!(!Coord::new((-1, 5)).in_field());
    assert!(!Coord::new((5, -1)).in_field());
    assert_eq!(N, 20);
}

#[test]
fn coord_distance_values() {
    let a = Coord::new((1, 2));
    let b = Coord::new((4, -2));
    assert_eq!(a.distance(&b), 7);
    assert_eq!(b.distance(&a), 7);
    assert_eq!(a.distance(&a), 0);
}

#[test]
fn coord_plus_minus() {
    let a = Coord::new((5, 6));
    let b = Coord::new((-2, 3));
    assert_eq!(a.plus(&b), Coord::new((3, 9)));
    assert_eq!(a.minus(&b), Coord::new((7, 3)));
    assert_eq!(a.plus(&b).minus(&b), a);
}

#[test]
fn coord_mk_4dir_corner_edge_inside() {
    assert_eq!(Coord::new((0, 0)).mk_4dir(), vec![Coord::new((1, 0)), Coord::new((0, 1))]);
    assert_eq!(
        Coord::new((19, 5)).mk_4dir(),
        vec![Coord::new((18, 5)), Coord::new((19, 4)), Coord::new((19, 6))]
    );
    assert_eq!(
        Coord::new((4, 4)).mk_4dir(),
        vec![Coord::new((3, 4)), Coord::new((5, 4)), Coord::new((4, 3)), Coord::new((4, 5))]
    );
    for n in Coord::new((4, 4)).mk_4dir() {
        assert_eq!(n.distance(&Coord::new((4, 4))), 1);
    }
}

#[test]
fn coord_com_to_delta() {
    assert_eq!(Coord::com_to_delta('U'), Coord::new((0, -1)));
    assert_eq!(Coord::com_to_delta('D'), Coord::new((0, 1)));
    assert_eq!(Coord::com_to_delta('L'), Coord::new((-1, 0)));
    assert_eq!(Coord::com_to_delta('R'), Coord::new((1, 0)));
    assert_eq!(Coord::com_to_delta('U'), Direction::Up.to_delta());
}

#[test]
fn coord_matrix_access_and_set() {
    let mut m = vec![vec![0u32; 3]; 2];
    let c = Coord::new((2, 1));
    c.set_matrix(&mut m, 9);
    assert_eq!(*c.access_matrix(&m), 9);
    assert_eq!(m, vec![vec![0, 0, 0], vec![0, 0, 9]]);
}

#[test]
fn direction_numbers_and_deltas() {
    assert_eq!(Direction::Up.to_num(), 0);
    assert_eq!(Direction::Left.to_num(), 1);
    assert_eq!(Direction::Down.to_num(), 2);
    assert_eq!(Direction::Right.to_num(), 3);
    assert_eq!(Direction::Left.to_delta(), Coord::new((-1, 0)));
    assert_eq!(Direction::Right.to_delta(), Coord::new((1, 0)));
    assert_eq!(Direction::Up.to_delta(), Coord::new((0, -1)));
    assert_eq!(Direction::Down.to_delta(), Coord::new((0, 1)));
}

#[test]
fn direction_rotations() {
    assert_eq!(Direction::Up.rotate_right(), Direction::Right);
    assert_eq!(Direction::Right.rotate_right(), Direction::Down);
    assert_eq!(Direction::Down.rotate_right(), Direction::Left);
    assert_eq!(Direction::Left.rotate_right(), Direction::Up);
    assert_eq!(Direction::Up.rotate_left(), Direction::Left);
    assert_eq!(Direction::Left.rotate_left(), Direction::Down);
    for d in [Direction::Up, Direction::Left, Direction::Down, Direction::Right] {
        assert_eq!(d.rotate_right().rotate_left(), d);
        assert_eq!(d.rotate_left().rotate_right(), d);
        assert_eq!(d.rotate_right().rotate_right().rotate_right().rotate_right(), d);
        assert_eq!(d.rotate_right().to_num(), (d.to_num() + 3) % 4);
        assert_eq!(d.rotate_left().to_num(), (d.to_num() + 1) % 4);
        let dl = d.to_delta();
        assert_eq!(d.rotate_right().to_delta(), Coord::new((-dl.y, dl.x)));
    }
}
