use vstd::prelude::*;

verus! {

/// Side length of the square field.
pub const N: usize = 20;

/// Absolute value of an integer.
pub open spec fn abs(i: int) -> int {
    if i < 0 { -i } else { i }
}

/// A cell of the field: `x` is the column, `y` the row.
#[derive(Debug, Clone, Copy, PartialEq, Eq, Structural, PartialOrd, Ord)]
pub struct Coord {
    pub x: isize,
    pub y: isize,
}

impl Coord {
    /// Whether the cell lies inside the `N` by `N` field.
    pub open spec fn spec_in_field(self) -> bool {
        0 <= self.x < N && 0 <= self.y < N
    }

    /// Manhattan distance between two cells.
    pub open spec fn spec_distance(self, that: Coord) -> int {
        abs(self.x - that.x) + abs(self.y - that.y)
    }

    /// Whether `self + that` fits in `isize` on both axes.
    pub open spec fn can_add(self, that: Coord) -> bool {
        isize::MIN <= self.x + that.x <= isize::MAX && isize::MIN <= self.y + that.y <= isize::MAX
    }

    /// Whether `self - that` fits in `isize` on both axes.
    pub open spec fn can_sub(self, that: Coord) -> bool {
        isize::MIN <= self.x - that.x <= isize::MAX && isize::MIN <= self.y - that.y <= isize::MAX
    }

    pub open spec fn spec_plus(self, that: Coord) -> Coord {
        Coord { x: (self.x + that.x) as isize, y: (self.y + that.y) as isize }
    }

    pub open spec fn spec_minus(self, that: Coord) -> Coord {
        Coord { x: (self.x - that.x) as isize, y: (self.y - that.y) as isize }
    }

    /// The four orthogonal neighbours, in the order left, right, up, down,
    /// keeping only those inside the field.
    pub open spec fn spec_neighbours(self) -> Seq<Coord> {
        let l = Coord { x: (self.x - 1) as isize, y: self.y };
        let r = Coord { x: (self.x + 1) as isize, y: self.y };
        let u = Coord { x: self.x, y: (self.y - 1) as isize };
        let d = Coord { x: self.x, y: (self.y + 1) as isize };
        (if l.spec_in_field() { seq![l] } else { Seq::empty() })
            + (if r.spec_in_field() { seq![r] } else { Seq::empty() })
            + (if u.spec_in_field() { seq![u] } else { Seq::empty() })
            + (if d.spec_in_field() { seq![d] } else { Seq::empty() })
    }

    /// Whether `(x, y)` indexes an entry of `mat`, row `y` then column `x`.
    pub open spec fn indexes<T>(self, mat: Seq<Vec<T>>) -> bool {
        0 <= self.y < mat.len() && 0 <= self.x < mat[self.y as int]@.len()
    }

    pub fn new(p: (isize, isize)) -> (c: Coord)
        ensures
            c.x == p.0,
            c.y == p.1,
    {
        Coord { x: p.0, y: p.1 }
    }

    /// The cell `(p.0, p.1)`, each converted as `as isize` converts.
    pub fn from_usize_pair(p: (usize, usize)) -> (c: Coord)
        ensures
            c.x == p.0 as isize,
            c.y == p.1 as isize,
    {
        Coord { x: p.0 as isize, y: p.1 as isize }
    }

    pub fn in_field(&self) -> (b: bool)
        ensures
            b == self.spec_in_field(),
    {
        (0 <= self.x && self.x < N as isize) && (0 <= self.y && self.y < N as isize)
    }

    pub fn to_pair(&self) -> (p: (isize, isize))
        ensures
            p == (self.x, self.y),
    {
        (self.x, self.y)
    }

    /// Manhattan distance; the caller guarantees it fits in `isize`.
    pub fn distance(&self, that: &Self) -> (d: isize)
        requires
            self.spec_distance(*that) <= isize::MAX,
        ensures
            d == self.spec_distance(*that),
    {
        let dx = self.x - that.x;
        let dy = self.y - that.y;
        let ax = if dx < 0 { -dx } else { dx };
        let ay = if dy < 0 { -dy } else { dy };
        ax + ay
    }

    /// The neighbours of the cell that lie in the field, in the order
    /// left, right, up, down.
    pub fn mk_4dir(&self) -> (v: Vec<Self>)
        requires
            isize::MIN < self.x < isize::MAX,
            isize::MIN < self.y < isize::MAX,
        ensures
            v@ == self.spec_neighbours(),
    {
        let deltas = [(-1isize, 0isize), (1, 0), (0, -1), (0, 1)];
        let mut v: Vec<Coord> = Vec::new();
        let mut i: usize = 0;
        while i < 4
            invariant
                0 <= i <= 4,
                isize::MIN < self.x < isize::MAX,
                isize::MIN < self.y < isize::MAX,
                deltas@ == seq![(-1isize, 0isize), (1isize, 0isize), (0isize, -1isize), (0isize, 1isize)],
                v@ == Self::neighbours_prefix(*self, i as int),
            decreases 4 - i,
        {
            let pos = self.plus(&Coord::new(deltas[i]));
            if pos.in_field() {
                v.push(pos);
            }
            i += 1;
        }
        proof {
            reveal_with_fuel(Coord::neighbours_prefix, 5);
            assert(v@ =~= self.spec_neighbours());
        }
        v
    }

    /// The neighbours among the first `k` of the four directions.
    pub open spec fn neighbours_prefix(c: Coord, k: int) -> Seq<Coord>
        decreases k,
    {
        if k <= 0 {
            Seq::empty()
        } else {
            let d = if k == 1 {
                Coord { x: -1isize, y: 0 }
            } else if k == 2 {
                Coord { x: 1, y: 0 }
            } else if k == 3 {
                Coord { x: 0, y: -1isize }
            } else {
                Coord { x: 0, y: 1 }
            };
            let p = c.spec_plus(d);
            Self::neighbours_prefix(c, k - 1) + (if k <= 4 && p.spec_in_field() {
                seq![p]
            } else {
                Seq::empty()
            })
        }
    }

    /// The unit step that a command letter of a path stands for.
    pub fn com_to_delta(com: char) -> (d: Self)
        requires
            com == 'U' || com == 'D' || com == 'L' || com == 'R',
        ensures
            com == 'U' ==> d == Direction::Up.spec_delta(),
            com == 'D' ==> d == Direction::Down.spec_delta(),
            com == 'L' ==> d == Direction::Left.spec_delta(),
            com == 'R' ==> d == Direction::Right.spec_delta(),
    {
        match com {
            'U' => Coord::new((0, -1)),
            'D' => Coord::new((0, 1)),
            'L' => Coord::new((-1, 0)),
            _ => Coord::new((1, 0)),
        }
    }

    pub fn plus(&self, that: &Self) -> (c: Self)
        requires
            self.can_add(*that),
        ensures
            c == self.spec_plus(*that),
    {
        Coord::new((self.x + that.x, self.y + that.y))
    }

    pub fn minus(&self, that: &Self) -> (c: Self)
        requires
            self.can_sub(*that),
        ensures
            c == self.spec_minus(*that),
    {
        Coord::new((self.x - that.x, self.y - that.y))
    }

    /// The entry of `mat` at row `y`, column `x`.
    pub fn access_matrix<'a, T>(&'a self, mat: &'a Vec<Vec<T>>) -> (e: &'a T)
        requires
            self.indexes(mat@),
        ensures
            *e == mat@[self.y as int]@[self.x as int],
    {
        &mat[self.y as usize][self.x as usize]
    }

    /// Overwrites the entry of `mat` at row `y`, column `x`.
    pub fn set_matrix<T>(&self, mat: &mut Vec<Vec<T>>, e: T)
        requires
            self.indexes(old(mat)@),
        ensures
            final(mat)@.len() == old(mat)@.len(),
            forall|i: int| 0 <= i < old(mat)@.len() && i != self.y ==> final(mat)@[i] == old(mat)@[i],
            final(mat)@[self.y as int]@ == old(mat)@[self.y as int]@.update(self.x as int, e),
    {
        mat[self.y as usize][self.x as usize] = e;
    }
}

/// The direction the robot faces.
#[derive(Debug, Clone, Copy, PartialEq, Eq, Structural, PartialOrd, Ord)]
pub enum Direction {
    Left,
    Right,
    Up,
    Down,
}

impl Direction {
    pub open spec fn spec_delta(self) -> Coord {
        match self {
            Direction::Left => Coord { x: -1isize, y: 0 },
            Direction::Right => Coord { x: 1, y: 0 },
            Direction::Up => Coord { x: 0, y: -1isize },
            Direction::Down => Coord { x: 0, y: 1 },
        }
    }

    pub open spec fn spec_num(self) -> int {
        match self {
            Direction::Up => 0,
            Direction::Left => 1,
            Direction::Down => 2,
            Direction::Right => 3,
        }
    }

    /// The direction after a quarter turn clockwise.
    pub open spec fn spec_right(self) -> Direction {
        match self {
            Direction::Left => Direction::Up,
            Direction::Right => Direction::Down,
            Direction::Up => Direction::Right,
            Direction::Down => Direction::Left,
        }
    }

    /// The direction after a quarter turn anticlockwise.
    pub open spec fn spec_left(self) -> Direction {
        match self {
            Direction::Left => Direction::Down,
            Direction::Right => Direction::Up,
            Direction::Up => Direction::Left,
            Direction::Down => Direction::Right,
        }
    }

    pub fn to_delta(&self) -> (d: Coord)
        ensures
            d == self.spec_delta(),
    {
        match *self {
            Self::Left => Coord::new((-1, 0)),
            Self::Right => Coord::new((1, 0)),
            Self::Up => Coord::new((0, -1)),
            Self::Down => Coord::new((0, 1)),
        }
    }

    pub fn to_num(&self) -> (n: usize)
        ensures
            n == self.spec_num(),
    {
        match *self {
            Self::Up => 0,
            Self::Left => 1,
            Self::Down => 2,
            Self::Right => 3,
        }
    }

    pub fn rotate_right(&self) -> (d: Self)
        ensures
            d == self.spec_right(),
    {
        match *self {
            Self::Left => Self::Up,
            Self::Right => Self::Down,
            Self::Up => Self::Right,
            Self::Down => Self::Left,
        }
    }

    pub fn rotate_left(&self) -> (d: Self)
        ensures
            d == self.spec_left(),
    {
        match *self {
            Self::Left => Self::Down,
            Self::Right => Self::Up,
            Self::Up => Self::Left,
            Self::Down => Self::Right,
        }
    }
}

/// A left turn undoes a right turn and the other way round.
pub proof fn lemma_rotations_inverse(d: Direction)
    ensures
        d.spec_right().spec_left() == d,
        d.spec_left().spec_right() == d,
{
}

/// Four right turns (or four left turns) bring the robot back to where it faced.
pub proof fn lemma_four_turns(d: Direction)
    ensures
        d.spec_right().spec_right().spec_right().spec_right() == d,
        d.spec_left().spec_left().spec_left().spec_left() == d,
{
}

/// `to_num` numbers the directions 0 to 3 without repeating one, and a right
/// turn steps that number down by one, a left turn up by one, modulo 4.
pub proof fn lemma_num_bijective(d1: Direction, d2: Direction)
    ensures
        0 <= d1.spec_num() < 4,
        d1.spec_num() == d2.spec_num() ==> d1 == d2,
        d1.spec_right().spec_num() == (d1.spec_num() + 3) % 4,
        d1.spec_left().spec_num() == (d1.spec_num() + 1) % 4,
{
}

/// A right turn rotates the unit step by a quarter turn clockwise (with `y` pointing down).
pub proof fn lemma_delta_rotates(d: Direction)
    ensures
        d.spec_right().spec_delta() == (Coord { x: (-d.spec_delta().y) as isize, y: d.spec_delta().x }),
        d.spec_left().spec_delta() == (Coord { x: d.spec_delta().y, y: (-d.spec_delta().x) as isize }),
{
}

/// Subtracting what was added gives the cell back.
pub proof fn lemma_plus_minus(a: Coord, b: Coord)
    requires
        a.can_add(b),
    ensures
        a.spec_plus(b).can_sub(b),
        a.spec_plus(b).spec_minus(b) == a,
{
}

/// The Manhattan distance is symmetric, zero exactly between equal cells,
/// and one between a cell and each of its neighbours.
pub proof fn lemma_distance(a: Coord, b: Coord)
    requires
        isize::MIN < a.x < isize::MAX,
        isize::MIN < a.y < isize::MAX,
    ensures
        a.spec_distance(b) == b.spec_distance(a),
        a.spec_distance(b) == 0 <==> a == b,
        forall|i: int| 0 <= i < a.spec_neighbours().len() ==> a.spec_distance(#[trigger] a.spec_neighbours()[i]) == 1
            && a.spec_neighbours()[i].spec_in_field(),
{
}

} // verus!
