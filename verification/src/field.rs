use vstd::prelude::*;

use crate::command::{Cmd, Command};
use crate::geometry::{Coord, Direction, N};

verus! {

/// The field: the start cell and the walls.
/// `h[y][x]` is a wall between `(x, y)` and `(x + 1, y)`;
/// `v[y][x]` is a wall between `(x, y)` and `(x, y + 1)`.
pub struct Input {
    pub start: Coord,
    pub h: Vec<Vec<bool>>,
    pub v: Vec<Vec<bool>>,
}

impl Input {
    /// `h` has `N` rows of `N - 1` entries, `v` has `N - 1` rows of `N` entries.
    pub open spec fn wf(&self) -> bool {
        &&& self.h@.len() == N
        &&& forall|y: int| 0 <= y < N ==> #[trigger] self.h@[y]@.len() == N - 1
        &&& self.v@.len() == N - 1
        &&& forall|y: int| 0 <= y < N - 1 ==> #[trigger] self.v@[y]@.len() == N
    }

    /// The walls read from rows of characters, where `'1'` marks a wall.
    pub open spec fn parsed_from(&self, h: Seq<Vec<char>>, v: Seq<Vec<char>>) -> bool {
        &&& forall|y: int, x: int|
            0 <= y < N && 0 <= x < N - 1 ==> #[trigger] self.h@[y]@[x] == (h[y]@[x] == '1')
        &&& forall|y: int, x: int|
            0 <= y < N - 1 && 0 <= x < N ==> #[trigger] self.v@[y]@[x] == (v[y]@[x] == '1')
    }

    pub fn new(sy: usize, sx: usize, h: Vec<Vec<char>>, v: Vec<Vec<char>>) -> (input: Self)
        requires
            h@.len() >= N,
            forall|y: int| 0 <= y < N ==> #[trigger] h@[y]@.len() >= N - 1,
            v@.len() >= N - 1,
            forall|y: int| 0 <= y < N - 1 ==> #[trigger] v@[y]@.len() >= N,
        ensures
            input.wf(),
            input.start == (Coord { x: sx as isize, y: sy as isize }),
            input.parsed_from(h@, v@),
    {
        let mut hh: Vec<Vec<bool>> = Vec::new();
        for y in 0..N
            invariant
                h@.len() >= N,
                forall|y: int| 0 <= y < N ==> #[trigger] h@[y]@.len() >= N - 1,
                hh@.len() == y,
                forall|yy: int| 0 <= yy < y ==> #[trigger] hh@[yy]@.len() == N - 1,
                forall|yy: int, x: int|
                    0 <= yy < y && 0 <= x < N - 1 ==> #[trigger] hh@[yy]@[x] == (h@[yy]@[x] == '1'),
        {
            let mut row: Vec<bool> = Vec::new();
            for x in 0..N - 1
                invariant
                    y < N,
                    h@.len() >= N,
                    h@[y as int]@.len() >= N - 1,
                    row@.len() == x,
                    forall|xx: int| 0 <= xx < x ==> #[trigger] row@[xx] == (h@[y as int]@[xx] == '1'),
            {
                row.push(h[y][x] == '1');
            }
            hh.push(row);
        }
        let mut vv: Vec<Vec<bool>> = Vec::new();
        for y in 0..N - 1
            invariant
                v@.len() >= N - 1,
                forall|y: int| 0 <= y < N - 1 ==> #[trigger] v@[y]@.len() >= N,
                vv@.len() == y,
                forall|yy: int| 0 <= yy < y ==> #[trigger] vv@[yy]@.len() == N,
                forall|yy: int, x: int|
                    0 <= yy < y && 0 <= x < N ==> #[trigger] vv@[yy]@[x] == (v@[yy]@[x] == '1'),
        {
            let mut row: Vec<bool> = Vec::new();
            for x in 0..N
                invariant
                    y < N - 1,
                    v@.len() >= N - 1,
                    v@[y as int]@.len() >= N,
                    row@.len() == x,
                    forall|xx: int| 0 <= xx < x ==> #[trigger] row@[xx] == (v@[y as int]@[xx] == '1'),
            {
                row.push(v[y][x] == '1');
            }
            vv.push(row);
        }
        Self { start: Coord::from_usize_pair((sx, sy)), h: hh, v: vv }
    }
}

/// The robot: where it stands and where it faces.
#[derive(Debug, Clone, Copy, PartialEq, Eq, Structural, PartialOrd, Ord)]
pub struct Robot {
    pub pos: Coord,
    pub direction: Direction,
}

impl Robot {
    /// The cell in front of the robot.
    pub open spec fn spec_next(self) -> Coord {
        self.pos.spec_plus(self.direction.spec_delta())
    }

    pub open spec fn spec_in_field(self) -> bool {
        self.pos.spec_in_field()
    }

    /// The cell in front lies in the field and no wall stands between.
    pub open spec fn spec_can_progress(self, input: &Input) -> bool {
        let next = self.spec_next();
        &&& next.spec_in_field()
        &&& match self.direction {
            Direction::Left => !input.h@[next.y as int]@[next.x as int],
            Direction::Right => !input.h@[self.pos.y as int]@[self.pos.x as int],
            Direction::Up => !input.v@[next.y as int]@[next.x as int],
            Direction::Down => !input.v@[self.pos.y as int]@[self.pos.x as int],
        }
    }

    pub open spec fn spec_forward(self) -> Robot {
        Robot { pos: self.spec_next(), direction: self.direction }
    }

    /// The robot after one plain command; `None` where the command is a
    /// repetition or a move into a wall.
    pub open spec fn spec_step(self, input: &Input, c: Cmd) -> Option<Robot> {
        match c {
            Cmd::TurnR => Some(Robot { direction: self.direction.spec_right(), ..self }),
            Cmd::TurnL => Some(Robot { direction: self.direction.spec_left(), ..self }),
            Cmd::Turnr => if self.spec_can_progress(input) {
                Some(self)
            } else {
                Some(Robot { direction: self.direction.spec_right(), ..self })
            },
            Cmd::Turnl => if self.spec_can_progress(input) {
                Some(self)
            } else {
                Some(Robot { direction: self.direction.spec_left(), ..self })
            },
            Cmd::F => if self.spec_can_progress(input) {
                Some(self.spec_forward())
            } else {
                None
            },
            Cmd::Iter(_, _) => None,
        }
    }

    pub fn new(input: &Input) -> (r: Self)
        ensures
            r == (Robot { pos: input.start, direction: Direction::Up }),
    {
        Self { pos: input.start, direction: Direction::Up }
    }

    pub fn can_progress(&self, input: &Input) -> (b: bool)
        requires
            input.wf(),
            self.spec_in_field(),
        ensures
            b == self.spec_can_progress(input),
    {
        let next = self.pos.plus(&self.direction.to_delta());
        if next.in_field() {
            match self.direction {
                Direction::Left => !*next.access_matrix(&input.h),
                Direction::Right => !*self.pos.access_matrix(&input.h),
                Direction::Up => !*next.access_matrix(&input.v),
                Direction::Down => !*self.pos.access_matrix(&input.v),
            }
        } else {
            false
        }
    }

    /// Carries out one plain command; a move into a wall is excluded. A
    /// quarter turn reads neither the field nor the place.
    pub fn do_command(&mut self, command: &Command, input: &Input)
        requires
            command.model() is TurnR || command.model() is TurnL || (input.wf() && old(self).spec_in_field()),
            old(self).spec_step(input, command.model()) is Some,
        ensures
            Some(*final(self)) == old(self).spec_step(input, command.model()),
            old(self).spec_in_field() ==> final(self).spec_in_field(),
    {
        match command {
            Command::TurnR => self.direction = self.direction.rotate_right(),
            Command::TurnL => self.direction = self.direction.rotate_left(),
            Command::Turnr => {
                if !self.can_progress(input) {
                    self.direction = self.direction.rotate_right()
                }
            },
            Command::Turnl => {
                if !self.can_progress(input) {
                    self.direction = self.direction.rotate_left()
                }
            },
            Command::F => self.pos = self.pos.plus(&self.direction.to_delta()),
            Command::Iter(_, _) => {},
        }
    }
}

} // verus!

verus! {

/// The robot after the plain commands of `cs`, one after the other; `None`
/// where one of them is a move into a wall or a repetition.
pub open spec fn walk(input: &Input, r: Robot, cs: Seq<Cmd>) -> Option<Robot>
    decreases cs.len(),
{
    if cs.len() == 0 {
        Some(r)
    } else {
        match walk(input, r, cs.subrange(0, cs.len() - 1)) {
            Some(t) => t.spec_step(input, cs[cs.len() - 1]),
            None => None,
        }
    }
}

/// The moves a search tries: a quarter turn either way, or a step forward.
pub open spec fn is_move(c: Cmd) -> bool {
    c is TurnL || c is TurnR || c is F
}

/// Robot `b` can be reached from robot `a` by turning and stepping forward.
pub open spec fn reachable(input: &Input, a: Robot, b: Robot) -> bool {
    exists|cs: Seq<Cmd>|
        (forall|i: int| 0 <= i < cs.len() ==> #[trigger] is_move(cs[i])) && #[trigger] walk(input, a, cs)
            == Some(b)
}

/// From every place and heading in the field, every place and heading can be reached.
pub open spec fn connected(input: &Input) -> bool {
    forall|a: Robot, b: Robot|
        a.spec_in_field() && b.spec_in_field() ==> #[trigger] reachable(input, a, b)
}

/// A plain step keeps the robot in the field.
pub proof fn lemma_step_in_field(input: &Input, r: Robot, c: Cmd)
    requires
        r.spec_in_field(),
    ensures
        r.spec_step(input, c) matches Some(t) ==> t.spec_in_field(),
{
}

/// Reachability grows by one move at a time.
pub proof fn lemma_reachable_step(input: &Input, a: Robot, b: Robot, m: Cmd)
    requires
        reachable(input, a, b),
        is_move(m),
        b.spec_step(input, m) is Some,
    ensures
        reachable(input, a, b.spec_step(input, m).unwrap()),
{
    let cs = choose|cs: Seq<Cmd>|
        (forall|i: int| 0 <= i < cs.len() ==> #[trigger] is_move(cs[i])) && #[trigger] walk(input, a, cs)
            == Some(b);
    let cs2 = cs.push(m);
    assert(cs2.subrange(0, cs2.len() - 1) =~= cs);
    assert(forall|i: int| 0 <= i < cs2.len() ==> #[trigger] is_move(cs2[i]));
    assert(walk(input, a, cs2) == b.spec_step(input, m));
}

/// Every robot reaches itself.
pub proof fn lemma_reachable_refl(input: &Input, a: Robot)
    ensures
        reachable(input, a, a),
{
    let cs = Seq::<Cmd>::empty();
    assert(walk(input, a, cs) == Some(a));
}

} // verus!

verus! {

/// The cell next to `c` on side `d`: left and right change `x`, up and
/// down change `y`, with `y` growing downwards.
pub open spec fn neighbour(c: Coord, d: Direction) -> Coord {
    match d {
        Direction::Left => Coord { x: (c.x - 1) as isize, y: c.y },
        Direction::Right => Coord { x: (c.x + 1) as isize, y: c.y },
        Direction::Up => Coord { x: c.x, y: (c.y - 1) as isize },
        Direction::Down => Coord { x: c.x, y: (c.y + 1) as isize },
    }
}

/// The one wall entry between two cells that share a side: that of `h`
/// at the left cell for cells side by side, that of `v` at the upper cell
/// for cells one above the other.
pub open spec fn wall_between(input: &Input, a: Coord, b: Coord) -> bool {
    if a.y == b.y && b.x == a.x + 1 {
        input.h@[a.y as int]@[a.x as int]
    } else if a.y == b.y && a.x == b.x + 1 {
        input.h@[b.y as int]@[b.x as int]
    } else if a.x == b.x && b.y == a.y + 1 {
        input.v@[a.y as int]@[a.x as int]
    } else if a.x == b.x && a.y == b.y + 1 {
        input.v@[b.y as int]@[b.x as int]
    } else {
        true
    }
}

/// A robot in the field can step forward exactly when the cell it faces
/// lies in the field and the single wall entry between the two cells is
/// absent; no other wall entry matters. A step forward brings it onto
/// that cell, facing the same way.
pub proof fn lemma_can_progress_walls(input: &Input, r: Robot)
    requires
        r.spec_in_field(),
    ensures
        r.spec_next() == neighbour(r.pos, r.direction),
        r.spec_can_progress(input) <==> (neighbour(r.pos, r.direction).spec_in_field() && !wall_between(
            input,
            r.pos,
            neighbour(r.pos, r.direction),
        )),
        r.spec_can_progress(input) ==> r.spec_step(input, Cmd::F) == Some(
            Robot { pos: neighbour(r.pos, r.direction), direction: r.direction },
        ),
{
}

} // verus!
