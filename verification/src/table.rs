use vstd::prelude::*;

use crate::field::Robot;
use crate::geometry::N;

verus! {

/// A table with an entry for each place and heading: `N` rows of `N`
/// cells of 4 entries, one per direction number.
pub open spec fn shape3<T>(t: Seq<Vec<Vec<T>>>) -> bool {
    &&& t.len() == N
    &&& forall|y: int| 0 <= y < N ==> #[trigger] t[y]@.len() == N
    &&& forall|y: int, x: int| 0 <= y < N && 0 <= x < N ==> #[trigger] t[y]@[x]@.len() == 4
}

/// The entry of `t` for robot `r`.
pub open spec fn at3<T>(t: Seq<Vec<Vec<T>>>, r: Robot) -> T {
    t[r.pos.y as int]@[r.pos.x as int]@[r.direction.spec_num()]
}

/// The number of robot `r` among the `4 N N` places and headings.
pub open spec fn robot_index(r: Robot) -> int {
    (r.pos.y * N + r.pos.x) * 4 + r.direction.spec_num()
}

/// Robots in the field have distinct numbers below `4 N N`.
pub proof fn lemma_robot_index(r1: Robot, r2: Robot)
    requires
        r1.spec_in_field(),
        r2.spec_in_field(),
    ensures
        0 <= robot_index(r1) < 4 * N * N,
        robot_index(r1) == robot_index(r2) ==> r1 == r2,
{
    crate::geometry::lemma_num_bijective(r1.direction, r2.direction);
    let a = r1.pos.y as int;
    let b = r1.pos.x as int;
    let c = r1.direction.spec_num();
    let d = r2.pos.y as int;
    let e = r2.pos.x as int;
    let f = r2.direction.spec_num();
    if robot_index(r1) == robot_index(r2) {
        assert(a == d && b == e && c == f) by (nonlinear_arith)
            requires
                0 <= a < 20,
                0 <= b < 20,
                0 <= c < 4,
                0 <= d < 20,
                0 <= e < 20,
                0 <= f < 4,
                (a * 20 + b) * 4 + c == (d * 20 + e) * 4 + f,
        ;
    }
}

/// A set of robot numbers has at most `4 N N` elements.
pub proof fn lemma_index_set_bound(seen: Set<int>)
    requires
        forall|i: int| #[trigger] seen.contains(i) ==> 0 <= i < 4 * N * N,
    ensures
        seen.finite(),
        seen.len() <= 4 * N * N,
{
    vstd::set_lib::lemma_int_range(0, (4 * N * N) as int);
    vstd::set_lib::lemma_len_subset(seen, vstd::set_lib::set_int_range(0, (4 * N * N) as int));
}

/// The entry of `t` for robot `r`, which is in the field.
pub fn get3<T: Copy>(t: &Vec<Vec<Vec<T>>>, r: &Robot) -> (v: T)
    requires
        shape3(t@),
        r.spec_in_field(),
    ensures
        v == at3(t@, *r),
{
    r.pos.access_matrix(t)[r.direction.to_num()]
}

/// Overwrites the entry of `t` for robot `r`, which is in the field.
pub fn set3<T>(t: &mut Vec<Vec<Vec<T>>>, r: &Robot, v: T)
    requires
        shape3(old(t)@),
        r.spec_in_field(),
    ensures
        shape3(final(t)@),
        forall|r2: Robot|
            r2.spec_in_field() ==> #[trigger] at3(final(t)@, r2) == if r2 == *r {
                v
            } else {
                at3(old(t)@, r2)
            },
{
    let y = r.pos.y as usize;
    let x = r.pos.x as usize;
    let d = r.direction.to_num();
    t[y][x][d] = v;
    proof {
        assert forall|r2: Robot| r2.spec_in_field() implies #[trigger] at3(t@, r2) == if r2 == *r {
            v
        } else {
            at3(old(t)@, r2)
        } by {
            crate::geometry::lemma_num_bijective(r2.direction, r.direction);
        }
    }
}

/// A table of `N` rows of `N` cells of 4 copies of `v`.
pub fn new3<T: Copy>(v: T) -> (t: Vec<Vec<Vec<T>>>)
    ensures
        shape3(t@),
        forall|r: Robot| r.spec_in_field() ==> #[trigger] at3(t@, r) == v,
{
    let mut t: Vec<Vec<Vec<T>>> = Vec::new();
    for y in 0..N
        invariant
            t@.len() == y,
            forall|yy: int| 0 <= yy < y ==> #[trigger] t@[yy]@.len() == N,
            forall|yy: int, x: int| 0 <= yy < y && 0 <= x < N ==> #[trigger] t@[yy]@[x]@.len() == 4,
            forall|yy: int, x: int, d: int|
                0 <= yy < y && 0 <= x < N && 0 <= d < 4 ==> #[trigger] t@[yy]@[x]@[d] == v,
    {
        let mut row: Vec<Vec<T>> = Vec::new();
        for x in 0..N
            invariant
                row@.len() == x,
                forall|xx: int| 0 <= xx < x ==> #[trigger] row@[xx]@.len() == 4,
                forall|xx: int, d: int| 0 <= xx < x && 0 <= d < 4 ==> #[trigger] row@[xx]@[d] == v,
        {
            let cell: Vec<T> = vec![v, v, v, v];
            row.push(cell);
        }
        t.push(row);
    }
    proof {
        assert forall|r: Robot| r.spec_in_field() implies #[trigger] at3(t@, r) == v by {
            crate::geometry::lemma_num_bijective(r.direction, r.direction);
        }
    }
    t
}

} // verus!
