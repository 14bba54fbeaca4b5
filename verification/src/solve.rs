use vstd::prelude::*;

use crate::command::{cmd_wf, commands_to_string, lemma_seq_wf, models, seq_repr, seq_wf, Cmd, Command};
use crate::field::{connected, reachable, Input, Robot};
use crate::geometry::{Coord, Direction, N};
use crate::search::{dist_spec, dist_table_from, distance_table, find_route, route_spec};
use crate::table::{at3, shape3};
use crate::state::{
    all_visited, exec_step, initial_run, lemma_not_gone_len, lemma_not_gone_prefix, not_gone_cells, run_cmd, run_iter, run_seq, Run,
    State,
};

verus! {

/// The sweeping pattern tried first: `a` rounds of "turn left, then turn
/// right while blocked (twice), step", then `b` rounds of the mirror image
/// (or the two in the other order when `r` is 1), all repeated
/// `4500 / ((a + b) * 4)` times.
pub open spec fn pattern(a: nat, b: nat, r: nat) -> Cmd {
    let ia = Cmd::Iter(a, seq![Cmd::TurnL, Cmd::Turnr, Cmd::Turnr, Cmd::F]);
    let ib = Cmd::Iter(b, seq![Cmd::TurnR, Cmd::Turnl, Cmd::Turnl, Cmd::F]);
    Cmd::Iter(4500nat / ((a + b) * 4), if r == 0 { seq![ia, ib] } else { seq![ib, ia] })
}

/// Commands that are not repetitions.
pub open spec fn all_plain(cs: Seq<Cmd>) -> bool {
    forall|i: int| 0 <= i < cs.len() ==> !(#[trigger] cs[i] is Iter)
}

/// Each plain command adds one to the counter.
proof fn lemma_plain_cnt(input: &Input, s: Run, cs: Seq<Cmd>)
    requires
        all_plain(cs),
    ensures
        run_seq(input, s, cs) matches Some(t) ==> t.cnt == s.cnt + cs.len(),
    decreases cs.len(),
{
    if cs.len() > 0 {
        let p = cs.subrange(0, cs.len() - 1);
        assert(all_plain(p)) by {
            assert forall|i: int| 0 <= i < p.len() implies !(#[trigger] p[i] is Iter) by {
                assert(p[i] == cs[i]);
            }
        }
        lemma_plain_cnt(input, s, p);
        let last = cs[cs.len() - 1];
        assert(!(last is Iter));
        match run_seq(input, s, p) {
            Some(t0) => {
                assert(run_cmd(input, t0, last) == exec_step(input, t0, last));
            },
            None => {},
        }
    }
}

/// `k` rounds of a body that adds `len` to the counter add `k * len`.
proof fn lemma_iter_cnt(input: &Input, s: Run, k: nat, body: Seq<Cmd>, len: nat)
    requires
        forall|s1: Run|
            #[trigger] run_seq(input, s1, body) is Some ==> run_seq(input, s1, body).unwrap().cnt == s1.cnt + len,
    ensures
        run_iter(input, s, k, body) matches Some(t) ==> t.cnt == s.cnt + k * len,
    decreases k,
{
    if k == 0 {
        assert(k * len == 0) by (nonlinear_arith)
            requires
                k == 0,
        ;
    } else {
        lemma_iter_cnt(input, s, (k - 1) as nat, body, len);
        match run_iter(input, s, (k - 1) as nat, body) {
            Some(t0) => {
                match run_seq(input, t0, body) {
                    Some(t1) => {
                        assert(run_seq(input, t0, body) is Some);
                        assert(t1.cnt == t0.cnt + len);
                        assert(t0.cnt == s.cnt + (k - 1) * len);
                        let km = (k - 1) as int;
                        assert(km * len + len == k * len) by (nonlinear_arith)
                            requires
                                km == k - 1,
                        ;
                        assert(run_iter(input, s, k, body) == Some(t1));
                    },
                    None => {},
                }
            },
            None => {},
        }
    }
}

/// The sweeping pattern carries out at most 4500 plain commands.
pub proof fn lemma_pattern_cnt(input: &Input, s: Run, a: nat, b: nat, r: nat)
    requires
        1 <= a,
        1 <= b,
    ensures
        run_cmd(input, s, pattern(a, b, r)) matches Some(t) ==> s.cnt <= t.cnt <= s.cnt + 4500,
{
    let ba = seq![Cmd::TurnL, Cmd::Turnr, Cmd::Turnr, Cmd::F];
    let bb = seq![Cmd::TurnR, Cmd::Turnl, Cmd::Turnl, Cmd::F];
    assert(all_plain(ba));
    assert(all_plain(bb));
    assert forall|s1: Run| #[trigger] run_seq(input, s1, ba) is Some implies run_seq(input, s1, ba).unwrap().cnt == s1.cnt + 4 by {
        lemma_plain_cnt(input, s1, ba);
    }
    assert forall|s1: Run| #[trigger] run_seq(input, s1, bb) is Some implies run_seq(input, s1, bb).unwrap().cnt == s1.cnt + 4 by {
        lemma_plain_cnt(input, s1, bb);
    }
    let ia = Cmd::Iter(a, ba);
    let ib = Cmd::Iter(b, bb);
    let outer = if r == 0 { seq![ia, ib] } else { seq![ib, ia] };
    let len = 4 * a + 4 * b;
    assert forall|s1: Run| #[trigger] run_seq(input, s1, outer) is Some implies run_seq(input, s1, outer).unwrap().cnt
        == s1.cnt + len by {
        let c0 = outer[0];
        let c1 = outer[1];
        assert(outer =~= seq![c0].push(c1));
        crate::search::lemma_run_seq_push(input, s1, seq![c0], c1);
        crate::compress::lemma_run_single(input, s1, c0);
        let m = run_cmd(input, s1, c0).unwrap();
        lemma_iter_cnt(input, s1, a, ba, 4);
        lemma_iter_cnt(input, s1, b, bb, 4);
        lemma_iter_cnt(input, m, a, ba, 4);
        lemma_iter_cnt(input, m, b, bb, 4);
    }
    let n = 4500nat / ((a + b) * 4);
    lemma_iter_cnt(input, s, n, outer, len);
    let d = ((a + b) * 4) as int;
    assert(d > 0);
    vstd::arithmetic::div_mod::lemma_fundamental_div_mod(4500, d);
    assert(0 <= 4500int % d);
    assert(n * len <= 4500) by (nonlinear_arith)
        requires
            n == 4500int / d,
            4500int == d * (4500int / d) + 4500int % d,
            0 <= 4500int % d,
            len == d,
    ;
    assert(n * len >= 0) by (nonlinear_arith)
        requires
            n >= 0,
            len >= 0,
    ;
}

/// The sweeping pattern repeats a body of two parts: for `r` 0, first `a`
/// rounds of "turn left, turn right while blocked twice, step", then `b`
/// rounds of "turn right, turn left while blocked twice, step"; for `r` 1 the
/// same two parts the other way round. The count is `4500 / ((a + b) * 4)`.
pub proof fn lemma_pattern_parts(a: nat, b: nat, r: nat)
    requires
        r <= 1,
    ensures
        pattern(a, b, r) is Iter,
        pattern(a, b, r)->Iter_0 == 4500nat / ((a + b) * 4),
        pattern(a, b, r)->Iter_1.len() == 2,
        pattern(a, b, r)->Iter_1[r as int] == Cmd::Iter(a, seq![Cmd::TurnL, Cmd::Turnr, Cmd::Turnr, Cmd::F]),
        pattern(a, b, r)->Iter_1[1 - r] == Cmd::Iter(b, seq![Cmd::TurnR, Cmd::Turnl, Cmd::Turnl, Cmd::F]),
{
}

/// The sweeping pattern as a command.
pub fn pattern_command(a: usize, b: usize, r: usize) -> (c: Command)
    requires
        1 <= a <= 7,
        1 <= b <= 7,
        r <= 1,
    ensures
        c.model() == pattern(a as nat, b as nat, r as nat),
        cmd_wf(c.model()),
{
    let va = vec![Command::TurnL, Command::Turnr, Command::Turnr, Command::F];
    let vb = vec![Command::TurnR, Command::Turnl, Command::Turnl, Command::F];
    proof {
        assert(va@ =~= seq![Command::TurnL, Command::Turnr, Command::Turnr, Command::F]);
        assert(vb@ =~= seq![Command::TurnR, Command::Turnl, Command::Turnl, Command::F]);
        assert(Command::TurnL.model() == Cmd::TurnL);
        assert(Command::TurnR.model() == Cmd::TurnR);
        assert(Command::Turnl.model() == Cmd::Turnl);
        assert(Command::Turnr.model() == Cmd::Turnr);
        assert(Command::F.model() == Cmd::F);
    }
    let ia = Command::Iter(a, va);
    let ib = Command::Iter(b, vb);
    let ghost ma = ia.model();
    let ghost mb = ib.model();
    proof {
        assert(ma->Iter_1 =~= seq![Cmd::TurnL, Cmd::Turnr, Cmd::Turnr, Cmd::F]);
        assert(mb->Iter_1 =~= seq![Cmd::TurnR, Cmd::Turnl, Cmd::Turnl, Cmd::F]);
    }
    let v = if r == 0 {
        vec![ia, ib]
    } else {
        vec![ib, ia]
    };
    let c = Command::Iter(4_500 / ((a + b) * 4), v);
    proof {
        let m = c.model();
        assert(m->Iter_1 =~= (if r == 0 { seq![ma, mb] } else { seq![mb, ma] }));
        let d = ((a + b) * 4) as int;
        vstd::arithmetic::div_mod::lemma_fundamental_div_mod(4500, d);
        let q = 4500int / d;
        if q == 0 {
            assert(d * q == 0) by (nonlinear_arith)
                requires
                    q == 0,
            ;
        }
        assert(4500nat / ((a as nat + b as nat) * 4) > 0);
        lemma_seq_wf(ma->Iter_1);
        lemma_seq_wf(mb->Iter_1);
        assert(cmd_wf(ma));
        assert(cmd_wf(mb));
        lemma_seq_wf(m->Iter_1);
    }
    c
}

} // verus!

verus! {

/// The direction with number `k`.
pub open spec fn direction_of(k: int) -> Direction {
    if k == 0 {
        Direction::Up
    } else if k == 1 {
        Direction::Left
    } else if k == 2 {
        Direction::Down
    } else {
        Direction::Right
    }
}

fn direction_of_num(k: usize) -> (d: Direction)
    requires
        k < 4,
    ensures
        d == direction_of(k as int),
        d.spec_num() == k,
{
    if k == 0 {
        Direction::Up
    } else if k == 1 {
        Direction::Left
    } else if k == 2 {
        Direction::Down
    } else {
        Direction::Right
    }
}

/// A distance table from every place and heading, indexed like a robot.
pub open spec fn dist_tables_ok(input: &Input, t: Seq<Vec<Vec<Vec<Vec<Vec<usize>>>>>>) -> bool {
    &&& shape3(t)
    &&& forall|r: Robot| r.spec_in_field() ==> dist_table_from(input, r, #[trigger] at3(t, r)@)
}

/// The distance tables from every place and heading.
pub fn build_distance_tables(input: &Input) -> (t: Vec<Vec<Vec<Vec<Vec<Vec<usize>>>>>>)
    requires
        input.wf(),
    ensures
        dist_tables_ok(input, t@),
{
    let mut t: Vec<Vec<Vec<Vec<Vec<Vec<usize>>>>>> = Vec::new();
    for y in 0..N
        invariant
            input.wf(),
            t@.len() == y,
            forall|yy: int| 0 <= yy < y ==> #[trigger] t@[yy]@.len() == N,
            forall|yy: int, x: int| 0 <= yy < y && 0 <= x < N ==> #[trigger] t@[yy]@[x]@.len() == 4,
            forall|yy: int, x: int, k: int|
                0 <= yy < y && 0 <= x < N && 0 <= k < 4 ==> dist_table_from(
                    input,
                    Robot { pos: Coord { x: x as isize, y: yy as isize }, direction: direction_of(k) },
                    #[trigger] t@[yy]@[x]@[k]@,
                ),
    {
        let mut row: Vec<Vec<Vec<Vec<Vec<usize>>>>> = Vec::new();
        for x in 0..N
            invariant
                input.wf(),
                y < N,
                row@.len() == x,
                forall|xx: int| 0 <= xx < x ==> #[trigger] row@[xx]@.len() == 4,
                forall|xx: int, k: int|
                    0 <= xx < x && 0 <= k < 4 ==> dist_table_from(
                        input,
                        Robot { pos: Coord { x: xx as isize, y: y as isize }, direction: direction_of(k) },
                        #[trigger] row@[xx]@[k]@,
                    ),
        {
            let mut cell: Vec<Vec<Vec<Vec<usize>>>> = Vec::new();
            for k in 0..4
                invariant
                    input.wf(),
                    y < N,
                    x < N,
                    cell@.len() == k,
                    forall|kk: int|
                        0 <= kk < k ==> dist_table_from(
                            input,
                            Robot { pos: Coord { x: x as isize, y: y as isize }, direction: direction_of(kk) },
                            #[trigger] cell@[kk]@,
                        ),
            {
                let start = Robot { pos: Coord::from_usize_pair((x, y)), direction: direction_of_num(k) };
                cell.push(distance_table(input, start));
            }
            row.push(cell);
        }
        t.push(row);
    }
    proof {
        assert forall|r: Robot| r.spec_in_field() implies dist_table_from(input, r, #[trigger] at3(t@, r)@) by {
            crate::geometry::lemma_num_bijective(r.direction, direction_of(r.direction.spec_num()));
            let k = r.direction.spec_num();
            assert(direction_of(k) == r.direction);
            assert(t@[r.pos.y as int]@[r.pos.x as int]@[k]@ == at3(t@, r)@);
        }
    }
    t
}

/// The largest of the four entries of cell `c`: the cost to reach `c`
/// facing whichever way costs most.
pub open spec fn worst(t: Seq<Vec<Vec<usize>>>, c: Coord) -> usize {
    let e = t[c.y as int]@[c.x as int]@;
    let m01 = if e[0] >= e[1] { e[0] } else { e[1] };
    let m23 = if e[2] >= e[3] { e[2] } else { e[3] };
    if m01 >= m23 { m01 } else { m23 }
}

/// The largest cost of `c` over its four headings.
pub open spec fn worst_of(cost: spec_fn(Robot) -> usize, c: Coord) -> usize {
    let e0 = cost(Robot { pos: c, direction: Direction::Up });
    let e1 = cost(Robot { pos: c, direction: Direction::Left });
    let e2 = cost(Robot { pos: c, direction: Direction::Down });
    let e3 = cost(Robot { pos: c, direction: Direction::Right });
    let m01 = if e0 >= e1 { e0 } else { e1 };
    let m23 = if e2 >= e3 { e2 } else { e3 };
    if m01 >= m23 { m01 } else { m23 }
}

/// The entries of a table as costs.
pub open spec fn table_cost(t: Seq<Vec<Vec<usize>>>) -> spec_fn(Robot) -> usize {
    |r: Robot| at3(t, r)
}

/// The cell that a left-to-right scan of `cands` keeps, with its cost: a
/// cell replaces the kept one only where its worst cost is strictly smaller;
/// `(-1, -1)` with cost `usize::MAX` before any.
pub open spec fn pick_fold(cost: spec_fn(Robot) -> usize, cands: Seq<Coord>) -> (Coord, usize)
    decreases cands.len(),
{
    if cands.len() == 0 {
        (Coord { x: -1isize, y: -1isize }, usize::MAX)
    } else {
        let (g, d) = pick_fold(cost, cands.drop_last());
        let w = worst_of(cost, cands.last());
        if w < d {
            (cands.last(), w)
        } else {
            (g, d)
        }
    }
}

/// Costs that agree on the cells of `cands` pick the same cell.
pub proof fn lemma_pick_congruent(f: spec_fn(Robot) -> usize, g: spec_fn(Robot) -> usize, cands: Seq<Coord>)
    requires
        forall|c: Coord, d: Direction|
            cands.contains(c) ==> #[trigger] f(Robot { pos: c, direction: d }) == g(Robot { pos: c, direction: d }),
    ensures
        pick_fold(f, cands) == pick_fold(g, cands),
    decreases cands.len(),
{
    if cands.len() > 0 {
        let p = cands.drop_last();
        assert forall|c: Coord, d: Direction| p.contains(c) implies #[trigger] f(Robot { pos: c, direction: d }) == g(
            Robot { pos: c, direction: d },
        ) by {
            let i = choose|i: int| 0 <= i < p.len() && p[i] == c;
            assert(cands[i] == c);
        }
        lemma_pick_congruent(f, g, p);
        let c = cands.last();
        assert(c == cands[cands.len() - 1]);
        assert(cands.contains(c));
        assert(f(Robot { pos: c, direction: Direction::Up }) == g(Robot { pos: c, direction: Direction::Up }));
        assert(f(Robot { pos: c, direction: Direction::Left }) == g(Robot { pos: c, direction: Direction::Left }));
        assert(f(Robot { pos: c, direction: Direction::Down }) == g(Robot { pos: c, direction: Direction::Down }));
        assert(f(Robot { pos: c, direction: Direction::Right }) == g(Robot { pos: c, direction: Direction::Right }));
    }
}

fn worst_distance(t: &Vec<Vec<Vec<usize>>>, pos: &Coord) -> (d: usize)
    requires
        shape3(t@),
        pos.spec_in_field(),
    ensures
        d == worst(t@, *pos),
{
    let e = pos.access_matrix(t);
    let mut m = e[0];
    for i in 1..4
        invariant
            e@.len() == 4,
            e@ == t@[pos.y as int]@[pos.x as int]@,
            m == if i == 1 {
                e@[0]
            } else if i == 2 {
                if e@[0] >= e@[1] { e@[0] } else { e@[1] }
            } else if i == 3 {
                let m01 = if e@[0] >= e@[1] { e@[0] } else { e@[1] };
                if m01 >= e@[2] { m01 } else { e@[2] }
            } else {
                worst(t@, *pos)
            },
    {
        if e[i] > m {
            m = e[i];
        }
    }
    m
}

/// The first cell of `cands` whose worst cost is smallest, where that cost is
/// finite; `(-1, -1)` where every cell's worst cost is `usize::MAX`.
pub fn pick_goal(t: &Vec<Vec<Vec<usize>>>, cands: &Vec<Coord>) -> (goal: Coord)
    requires
        shape3(t@),
        forall|i: int| 0 <= i < cands@.len() ==> (#[trigger] cands@[i]).spec_in_field(),
    ensures
        (forall|i: int| 0 <= i < cands@.len() ==> worst(t@, #[trigger] cands@[i]) == usize::MAX) ==> goal == (
        Coord { x: -1isize, y: -1isize }),
        !(forall|i: int| 0 <= i < cands@.len() ==> worst(t@, #[trigger] cands@[i]) == usize::MAX) ==> exists|k: int|
            0 <= k < cands@.len() && goal == cands@[k] && worst(t@, goal) < usize::MAX && (forall|j: int|
                0 <= j < cands@.len() ==> worst(t@, #[trigger] cands@[j]) >= worst(t@, goal)) && (forall|j: int|
                0 <= j < k ==> worst(t@, #[trigger] cands@[j]) > worst(t@, goal)),
        goal == pick_fold(table_cost(t@), cands@).0,
{
    let mut goal = Coord::new((-1, -1));
    let mut tmp_dist = usize::MAX;
    let ghost mut gk: int = -1;
    for i in 0..cands.len()
        invariant
            shape3(t@),
            forall|i: int| 0 <= i < cands@.len() ==> (#[trigger] cands@[i]).spec_in_field(),
            gk == -1 ==> goal == (Coord { x: -1isize, y: -1isize }) && tmp_dist == usize::MAX && forall|j: int|
                0 <= j < i ==> worst(t@, #[trigger] cands@[j]) == usize::MAX,
            gk != -1 ==> 0 <= gk < i && goal == cands@[gk] && tmp_dist == worst(t@, goal) && tmp_dist
                < usize::MAX && (forall|j: int| 0 <= j < i ==> worst(t@, #[trigger] cands@[j]) >= tmp_dist) && (
            forall|j: int| 0 <= j < gk ==> worst(t@, #[trigger] cands@[j]) > tmp_dist),
            (goal, tmp_dist) == pick_fold(table_cost(t@), cands@.subrange(0, i as int)),
    {
        let pos = cands[i];
        let dist = worst_distance(t, &pos);
        proof {
            let p = cands@.subrange(0, i + 1);
            assert(p.drop_last() =~= cands@.subrange(0, i as int));
            assert(p.last() == pos);
            assert(worst_of(table_cost(t@), pos) == dist);
        }
        if dist < tmp_dist {
            tmp_dist = dist;
            goal = pos;
            proof {
                gk = i as int;
            }
        }
    }
    proof {
        if gk != -1 {
            assert(worst(t@, cands@[gk]) < usize::MAX);
        }
        assert(cands@.subrange(0, cands@.len() as int) =~= cands@);
    }
    goal
}

} // verus!

verus! {

/// The length of the answer written when no pattern qualifies.
pub const MAX_COMMAND_NUM: usize = 5_000;

/// A pattern is followed up only where it leaves at most this many cells.
pub const REST_GRID_NUM_FOOTCUT: usize = 100;

/// Why no answer is given.
#[derive(Debug, Clone, Copy, PartialEq, Eq, Structural)]
pub enum SolveError {
    /// A sweeping pattern walks the robot into a wall.
    WallAhead,
    /// A cell cannot be reached from where the robot stands.
    Unreachable,
}

/// The answer written when no pattern qualifies: `MAX_COMMAND_NUM` zeros.
pub open spec fn zeros() -> Seq<char> {
    Seq::new(MAX_COMMAND_NUM as nat, |i: int| '0')
}

/// `text` is the text of well-formed commands that, run from the start,
/// never fault and leave every cell stood on.
pub open spec fn covers(input: &Input, text: Seq<char>) -> bool {
    exists|cs: Seq<Cmd>|
        #[trigger] seq_repr(cs) == text && seq_wf(cs) && (run_seq(input, initial_run(input), cs) matches Some(
            t,
        ) && all_visited(t.gone))
}

/// The sweeping pattern `(a, b, r)` walks into a wall from the start.
pub open spec fn pattern_fails(input: &Input, a: nat, b: nat, r: nat) -> bool {
    run_cmd(input, initial_run(input), pattern(a, b, r)) is None
}

/// Some sweeping pattern walks into a wall from the start.
pub open spec fn some_pattern_fails(input: &Input) -> bool {
    exists|a: nat, b: nat, r: nat| 1 <= a <= 7 && 1 <= b <= 7 && r <= 1 && #[trigger] pattern_fails(input, a, b, r)
}

/// No sweeping pattern before `(a, b, r)`, in the order `solve` tries them,
/// walks into a wall.
pub open spec fn none_fails_before(input: &Input, a: nat, b: nat, r: nat) -> bool {
    forall|a2: nat, b2: nat, r2: nat|
        1 <= a2 <= 7 && 1 <= b2 <= 7 && r2 <= 1 && (a2 < a || (a2 == a && (b2 < b || (b2 == b && r2 < r))))
            ==> !#[trigger] pattern_fails(input, a2, b2, r2)
}

fn zero_string() -> (s: String)
    ensures
        s@ == zeros(),
{
    let mut s = String::new();
    proof {
        reveal_strlit("0");
    }
    for i in 0..MAX_COMMAND_NUM
        invariant
            s@ == Seq::new(i as nat, |j: int| '0'),
            "0"@ == seq!['0'],
    {
        s.append("0");
        assert(s@ =~= Seq::new((i + 1) as nat, |j: int| '0'));
    }
    s
}

proof fn lemma_not_gone_empty(g: Seq<Seq<bool>>)
    requires
        not_gone_cells(g).len() == 0,
    ensures
        all_visited(g),
{
    lemma_not_gone_prefix(g, (N * N) as int);
    assert forall|y: int, x: int| 0 <= y < N && 0 <= x < N implies #[trigger] g[y][x] by {
        if !g[y][x] {
            assert(y * N + x < N * N) by (nonlinear_arith)
                requires
                    0 <= y < N,
                    0 <= x < N,
            ;
            assert(not_gone_cells(g).contains(Coord { x: x as isize, y: y as isize }));
        }
    }
}

proof fn lemma_seq_wf_append(a: Seq<Cmd>, b: Seq<Cmd>)
    requires
        seq_wf(a),
        seq_wf(b),
    ensures
        seq_wf(a + b),
{
    lemma_seq_wf(a);
    lemma_seq_wf(b);
    lemma_seq_wf(a + b);
    assert forall|i: int| 0 <= i < (a + b).len() implies #[trigger] cmd_wf((a + b)[i]) by {
        if i < a.len() {
            assert(cmd_wf(a[i]));
        } else {
            assert(cmd_wf(b[i - a.len()]));
        }
    }
}

} // verus!

verus! {

/// The visiting of the cells not yet stood on, from state `s` after the
/// commands `cs`, in at most `fuel` rounds: each round takes the cell that
/// `pick_fold` picks by the costs of the search from the robot, and the
/// route that `route_spec` finds there, and runs it. The commands in all once
/// every cell is stood on; `None` where a route is missing, or where the
/// rounds run out first.
pub open spec fn sweep(input: &Input, s: Run, cs: Seq<Cmd>, fuel: nat) -> Option<Seq<Cmd>>
    decreases fuel,
{
    let cells = not_gone_cells(s.gone);
    if cells.len() == 0 {
        Some(cs)
    } else if fuel == 0 {
        None
    } else {
        let goal = pick_fold(dist_spec(input, s.robot), cells).0;
        match route_spec(input, s.robot, goal) {
            None => None,
            Some((_, h)) => match run_seq(input, s, h) {
                Some(t) => sweep(input, t, cs + h, (fuel - 1) as nat),
                None => None,
            },
        }
    }
}

/// What the candidate `(a, b, r)` gives: `WallAhead` where its sweeping
/// pattern walks into a wall; `Ok(None)` where the pattern leaves more than
/// `REST_GRID_NUM_FOOTCUT` cells; else the pattern followed by the visiting
/// of the cells left, `Unreachable` where that fails, and otherwise the text
/// of those commands with the runs of forward moves merged.
pub open spec fn candidate(input: &Input, a: nat, b: nat, r: nat) -> Result<Option<Seq<char>>, SolveError> {
    match run_cmd(input, initial_run(input), pattern(a, b, r)) {
        None => Err(SolveError::WallAhead),
        Some(t) => if t.rest > REST_GRID_NUM_FOOTCUT {
            Ok(None)
        } else {
            match sweep(input, t, seq![pattern(a, b, r)], REST_GRID_NUM_FOOTCUT as nat) {
                None => Err(SolveError::Unreachable),
                Some(cs) => Ok(Some(seq_repr(crate::compress::compress_spec(cs)))),
            }
        },
    }
}

/// Where the visiting ends, the commands in all run from the start without
/// fault and leave every cell stood on.
proof fn lemma_sweep_covers(input: &Input, s: Run, cs: Seq<Cmd>, fuel: nat)
    requires
        run_seq(input, initial_run(input), cs) == Some(s),
    ensures
        sweep(input, s, cs, fuel) matches Some(all) ==> run_seq(input, initial_run(input), all) matches Some(
            t,
        ) && all_visited(t.gone),
    decreases fuel,
{
    let cells = not_gone_cells(s.gone);
    if cells.len() == 0 {
        lemma_not_gone_empty(s.gone);
    } else if fuel > 0 {
        let goal = crate::solve::pick_fold(dist_spec(input, s.robot), cells).0;
        match route_spec(input, s.robot, goal) {
            None => {},
            Some((_, h)) => match run_seq(input, s, h) {
                Some(t) => {
                    crate::compress::lemma_run_seq_append(input, initial_run(input), cs, h);
                    lemma_sweep_covers(input, t, cs + h, (fuel - 1) as nat);
                },
                None => {},
            },
        }
    }
}

/// The text that a candidate gives is that of commands with no two
/// neighbouring runs of forward moves, which run from the start without
/// fault and leave every cell stood on.
pub proof fn lemma_candidate_text(input: &Input, a: nat, b: nat, r: nat)
    ensures
        candidate(input, a, b, r) matches Ok(Some(text)) ==> exists|cs: Seq<Cmd>|
            #[trigger] seq_repr(cs) == text && (forall|i: int|
                0 <= i < cs.len() - 1 ==> !(#[trigger] crate::compress::is_f_run(cs[i])
                    && crate::compress::is_f_run(cs[i + 1]))) && (run_seq(input, initial_run(input), cs) matches Some(
                t,
            ) && all_visited(t.gone)),
{
    let init = initial_run(input);
    let p = pattern(a, b, r);
    match run_cmd(input, init, p) {
        None => {},
        Some(t) => {
            if t.rest <= REST_GRID_NUM_FOOTCUT {
                crate::compress::lemma_run_single(input, init, p);
                lemma_sweep_covers(input, t, seq![p], REST_GRID_NUM_FOOTCUT as nat);
                match sweep(input, t, seq![p], REST_GRID_NUM_FOOTCUT as nat) {
                    None => {},
                    Some(all) => {
                        let m = crate::compress::compress_spec(all);
                        crate::compress::lemma_compress_maximal(all);
                        crate::compress::lemma_compress_preserves_run(input, init, all);
                        assert(seq_repr(m) == seq_repr(m));
                    },
                }
            }
        },
    }
}

/// Runs the sweeping pattern `(a, b, r)` from the start; where it leaves at
/// most `REST_GRID_NUM_FOOTCUT` cells, visits the rest one by one (each time
/// the cell whose worst cost from the robot is smallest, by the route that
/// `find_route` finds), merges the runs of forward moves and gives the text
/// of the commands. `Ok(None)` where the pattern leaves too many cells.
pub fn run_candidate(
    input: &Input,
    dist_table: &Vec<Vec<Vec<Vec<Vec<Vec<usize>>>>>>,
    a: usize,
    b: usize,
    r: usize,
) -> (res: Result<Option<String>, SolveError>)
    requires
        input.wf(),
        input.start.spec_in_field(),
        dist_tables_ok(input, dist_table@),
        1 <= a <= 7,
        1 <= b <= 7,
        r <= 1,
    ensures
        res matches Ok(Some(s)) ==> covers(input, s@),
        res matches Err(SolveError::WallAhead) <==> pattern_fails(input, a as nat, b as nat, r as nat),
        res matches Ok(None) <==> (run_cmd(input, initial_run(input), pattern(a as nat, b as nat, r as nat))
            matches Some(t) && t.rest > REST_GRID_NUM_FOOTCUT),
        res matches Err(SolveError::Unreachable) ==> !connected(input),
        match candidate(input, a as nat, b as nat, r as nat) {
            Ok(Some(text)) => res matches Ok(Some(s)) && s@ == text,
            Ok(None) => res matches Ok(None),
            Err(e) => res == Err::<Option<String>, SolveError>(e),
        },
{
    let mut st = State::new(input);
    let com = pattern_command(a, b, r);
    let ghost init = st@;
    let ok = st.run_command(&com, input);
    if !ok {
        return Err(SolveError::WallAhead);
    }
    proof {
        lemma_pattern_cnt(input, init, a as nat, b as nat, r as nat);
    }
    if st.rest_grid_num > REST_GRID_NUM_FOOTCUT {
        return Ok(None);
    }
    let mut commands: Vec<Command> = vec![com];
    proof {
        assert(models(commands@) =~= seq![com.model()]);
        crate::compress::lemma_run_single(input, init, com.model());
        crate::compress::lemma_total_f_single(com.model());
        lemma_seq_wf(seq![com.model()]);
    }
    let ghost after_pattern = st@;
    let ghost mut fuel: nat = REST_GRID_NUM_FOOTCUT as nat;
    let ghost first = seq![pattern(a as nat, b as nat, r as nat)];
    let mut now_robot = st.robot;
    let mut not_gone_grids = st.get_not_gone_grids();
    while not_gone_grids.len() != 0
        invariant
            input.wf(),
            input.start.spec_in_field(),
            dist_tables_ok(input, dist_table@),
            init == initial_run(input),
            run_cmd(input, init, pattern(a as nat, b as nat, r as nat)) == Some(after_pattern),
            after_pattern.rest <= REST_GRID_NUM_FOOTCUT,
            st.wf(),
            now_robot == st.robot,
            not_gone_grids@ == not_gone_cells(st@.gone),
            run_seq(input, init, models(commands@)) == Some(st@),
            seq_wf(models(commands@)),
            commands@.len() >= 1,
            crate::compress::total_f(models(commands@)) + 1600 * st.rest_grid_num <= 640000,
            st.command_cnt + 1600 * st.rest_grid_num <= 644500,
            sweep(input, st@, models(commands@), fuel) == sweep(input, after_pattern, first, REST_GRID_NUM_FOOTCUT as nat),
            st.rest_grid_num <= fuel,
            first == seq![pattern(a as nat, b as nat, r as nat)],
        decreases st.rest_grid_num,
    {
        proof {
            lemma_not_gone_prefix(st@.gone, (N * N) as int);
            lemma_not_gone_len(st@.gone);
        }
        let table_now = &now_robot.pos.access_matrix(dist_table)[now_robot.direction.to_num()];
        proof {
            assert(*table_now == at3(dist_table@, now_robot));
        }
        let goal = pick_goal(table_now, &not_gone_grids);
        let ghost base = st@;
        proof {
            let cells = not_gone_grids@;
            assert(dist_table_from(input, now_robot, at3(dist_table@, now_robot)@));
            assert forall|c: Coord, d: Direction| cells.contains(c) implies #[trigger] table_cost(table_now@)(
                Robot { pos: c, direction: d },
            ) == dist_spec(input, now_robot)(Robot { pos: c, direction: d }) by {
                let i = choose|i: int| 0 <= i < cells.len() && cells[i] == c;
                assert(cells[i].spec_in_field());
                assert(Robot { pos: c, direction: d }.spec_in_field());
            }
            lemma_pick_congruent(table_cost(table_now@), dist_spec(input, now_robot), cells);
        }
        match find_route(input, now_robot, goal, Ghost(base)) {
            None => {
                proof {
                    let c0 = not_gone_grids@[0];
                    if goal == (Coord { x: -1isize, y: -1isize }) {
                        assert(!(goal.spec_in_field()));
                        assert(worst(table_now@, c0) == usize::MAX);
                        let e = table_now@[c0.y as int]@[c0.x as int]@;
                        let k: int = if e[0] == usize::MAX {
                            0
                        } else if e[1] == usize::MAX {
                            1
                        } else if e[2] == usize::MAX {
                            2
                        } else {
                            3
                        };
                        let rr = Robot { pos: c0, direction: direction_of(k) };
                        crate::geometry::lemma_num_bijective(rr.direction, rr.direction);
                        assert(at3(table_now@, rr) == usize::MAX);
                        assert(!reachable(input, now_robot, rr));
                    } else {
                        let rr = Robot { pos: goal, direction: Direction::Up };
                        assert(!reachable(input, now_robot, rr));
                    }
                }
                proof {
                    assert(sweep(input, st@, models(commands@), fuel) is None);
                    assert(sweep(input, after_pattern, first, REST_GRID_NUM_FOOTCUT as nat) is None);
                    assert(candidate(input, a as nat, b as nat, r as nat) == Err::<Option<Seq<char>>, SolveError>(
                        SolveError::Unreachable,
                    ));
                }
                return Err(SolveError::Unreachable);
            },
            Some((robot, mut history)) => {
                let ghost hm = models(history@);
                let ghost t_end = run_seq(input, base, hm).unwrap();
                let mut i: usize = 0;
                while i < history.len()
                    invariant
                        input.wf(),
                        st.wf(),
                        0 <= i <= history@.len(),
                        hm == models(history@),
                        run_seq(input, base, hm) == Some(t_end),
                        run_seq(input, base, hm.subrange(0, i as int)) == Some(st@),
                        crate::state::grid_le(base.gone, st@.gone),
                        st@.rest <= base.rest,
                        st@.gone == base.gone || st@.rest < base.rest,
                    decreases history@.len() - i,
                {
                    proof {
                        crate::state::lemma_seq_step(input, base, hm, i as int);
                        if run_cmd(input, st@, hm[i as int]) is None {
                            crate::state::lemma_seq_prefix_none(input, base, hm, i + 1);
                        }
                        assert(hm[i as int] == history@[i as int].model());
                    }
                    st.do_command(&history[i], input);
                    i += 1;
                }
                proof {
                    assert(hm.subrange(0, hm.len() as int) =~= hm);
                    assert(st@ == t_end);
                    assert(not_gone_grids@.contains(goal));
                    let gi = choose|gi: int| 0 <= gi < not_gone_grids@.len() && not_gone_grids@[gi] == goal;
                    assert(!base.gone[goal.y as int][goal.x as int]);
                    assert(st@.gone[goal.y as int][goal.x as int]);
                    assert(st@.rest < base.rest);
                    crate::compress::lemma_run_seq_append(input, init, models(commands@), hm);
                    crate::compress::lemma_total_f_append(models(commands@), hm);
                    lemma_seq_wf_append(models(commands@), hm);
                }
                let ghost old_models = models(commands@);
                commands.append(&mut history);
                proof {
                    assert(models(commands@) =~= old_models + hm);
                    assert(sweep(input, base, old_models, fuel) == sweep(input, st@, models(commands@), (fuel - 1) as nat));
                    fuel = (fuel - 1) as nat;
                }
                now_robot = robot;
            },
        }
        not_gone_grids = st.get_not_gone_grids();
    }
    proof {
        lemma_not_gone_empty(st@.gone);
        assert(sweep(input, st@, models(commands@), fuel) == Some(models(commands@)));
    }
    let ghost before = models(commands@);
    proof {
        crate::compress::lemma_runs_fit_total(before);
    }
    crate::compress::compress(&mut commands);
    proof {
        crate::compress::lemma_compress_preserves_run(input, init, before);
        lemma_seq_wf(before);
        crate::compress::lemma_compress_wf(before);
        lemma_seq_wf(models(commands@));
        assert forall|i: int| 0 <= i < commands@.len() implies cmd_wf(#[trigger] commands@[i].model()) by {
            assert(models(commands@)[i] == commands@[i].model());
        }
    }
    let repr = commands_to_string(&commands);
    proof {
        assert(seq_repr(models(commands@)) == repr@);
    }
    Ok(Some(repr))
}

} // verus!

verus! {

/// The candidate tried `k`-th, counting from 0: `a` is `k / 14 + 1`, `b` is
/// `(k / 2) % 7 + 1` and `r` is `k % 2`.
pub open spec fn candidate_at(input: &Input, k: nat) -> Result<Option<Seq<char>>, SolveError> {
    candidate(input, k / 14 + 1, (k / 2) % 7 + 1, k % 2)
}

/// The answer after the first `k` candidates: `MAX_COMMAND_NUM` zeros to
/// begin with, replaced by a candidate's text only where that text is
/// strictly shorter; the first failure stops the search.
pub open spec fn best_after(input: &Input, k: nat) -> Result<Seq<char>, SolveError>
    decreases k,
{
    if k == 0 {
        Ok(zeros())
    } else {
        match best_after(input, (k - 1) as nat) {
            Err(e) => Err(e),
            Ok(ans) => match candidate_at(input, (k - 1) as nat) {
                Err(e) => Err(e),
                Ok(None) => Ok(ans),
                Ok(Some(t)) => if t.len() < ans.len() {
                    Ok(t)
                } else {
                    Ok(ans)
                },
            },
        }
    }
}

/// The answer after all `98` candidates.
pub open spec fn best(input: &Input) -> Result<Seq<char>, SolveError> {
    best_after(input, 98)
}

/// Once the search has stopped on a failure, later candidates change nothing.
proof fn lemma_best_err(input: &Input, k: nat, m: nat)
    requires
        k <= m,
        best_after(input, k) is Err,
    ensures
        best_after(input, m) == best_after(input, k),
    decreases m,
{
    if k < m {
        lemma_best_err(input, k, (m - 1) as nat);
    }
}

/// Where no candidate fails, the answer is the zeros or the text of one of
/// the candidates, and no candidate's text is shorter.
pub proof fn lemma_best_is_shortest(input: &Input, k: nat)
    ensures
        best_after(input, k) matches Ok(ans) ==> {
            &&& ans == zeros() || exists|j: nat| j < k && #[trigger] candidate_at(input, j) == Ok::<
                Option<Seq<char>>,
                SolveError,
            >(Some(ans))
            &&& ans.len() <= MAX_COMMAND_NUM
            &&& forall|j: nat|
                j < k && #[trigger] candidate_at(input, j) is Ok && candidate_at(input, j)->Ok_0 is Some
                    ==> ans.len() <= candidate_at(input, j)->Ok_0->Some_0.len()
        },
    decreases k,
{
    if k > 0 {
        let k1 = (k - 1) as nat;
        lemma_best_is_shortest(input, k1);
        if best_after(input, k) is Ok {
            let prev = best_after(input, k1)->Ok_0;
            let ans = best_after(input, k)->Ok_0;
            assert forall|j: nat|
                j < k && #[trigger] candidate_at(input, j) is Ok && candidate_at(input, j)->Ok_0 is Some implies ans.len()
                <= candidate_at(input, j)->Ok_0->Some_0.len() by {
                if j < k1 {
                    assert(prev.len() <= candidate_at(input, j)->Ok_0->Some_0.len());
                }
            }
            if ans != zeros() && ans != prev {
                assert(candidate_at(input, k1) == Ok::<Option<Seq<char>>, SolveError>(Some(ans)));
            } else if ans != zeros() {
                let j = choose|j: nat| j < k1 && #[trigger] candidate_at(input, j) == Ok::<
                    Option<Seq<char>>,
                    SolveError,
                >(Some(prev));
            }
        }
    }
}

/// Candidate `(a, b, r)` is the one tried `(a - 1) * 14 + (b - 1) * 2 + r`-th.
proof fn lemma_candidate_index(a: nat, b: nat, r: nat)
    requires
        1 <= a <= 7,
        1 <= b <= 7,
        r <= 1,
    ensures
        ({
            let k = ((a - 1) * 14 + (b - 1) * 2 + r) as nat;
            k / 14 + 1 == a && (k / 2) % 7 + 1 == b && k % 2 == r
        }),
{
    let k = (a - 1) * 14 + (b - 1) * 2 + r;
    vstd::arithmetic::div_mod::lemma_fundamental_div_mod_converse(k, 14, a - 1, (b - 1) * 2 + r);
    vstd::arithmetic::div_mod::lemma_fundamental_div_mod_converse(k, 2, (a - 1) * 7 + (b - 1), r as int);
    vstd::arithmetic::div_mod::lemma_fundamental_div_mod_converse((a - 1) * 7 + (b - 1), 7, a - 1, b - 1);
}

/// The shortest text among the candidates that qualify: every sweeping
/// pattern `(a, b, r)` for `a` and `b` from 1 to 7 and `r` 0 or 1, followed
/// up as `run_candidate` does; `MAX_COMMAND_NUM` zeros where none gives a
/// shorter text. Returns the first failure met, in that order.
pub fn solve(input: &Input) -> (res: Result<String, SolveError>)
    requires
        input.wf(),
        input.start.spec_in_field(),
    ensures
        res matches Ok(s) ==> s@ == zeros() || (s@.len() < MAX_COMMAND_NUM && covers(input, s@)),
        res is Ok ==> !some_pattern_fails(input),
        res matches Err(SolveError::WallAhead) ==> some_pattern_fails(input),
        res matches Err(SolveError::Unreachable) ==> !connected(input),
        match best(input) {
            Ok(text) => res matches Ok(s) && s@ == text,
            Err(e) => res == Err::<String, SolveError>(e),
        },
{
    let dist_table = build_distance_tables(input);
    let mut ans = zero_string();
    let mut a: usize = 1;
    while a <= 7
        invariant
            input.wf(),
            input.start.spec_in_field(),
            dist_tables_ok(input, dist_table@),
            1 <= a <= 8,
            none_fails_before(input, a as nat, 1, 0),
            ans@ == zeros() || (ans@.len() < MAX_COMMAND_NUM && covers(input, ans@)),
            best_after(input, ((a - 1) * 14) as nat) == Ok::<Seq<char>, SolveError>(ans@),
        decreases 8 - a,
    {
        let mut b: usize = 1;
        while b <= 7
            invariant
                input.wf(),
                input.start.spec_in_field(),
                dist_tables_ok(input, dist_table@),
                1 <= a <= 7,
                1 <= b <= 8,
                none_fails_before(input, a as nat, b as nat, 0),
                ans@ == zeros() || (ans@.len() < MAX_COMMAND_NUM && covers(input, ans@)),
                best_after(input, ((a - 1) * 14 + (b - 1) * 2) as nat) == Ok::<Seq<char>, SolveError>(ans@),
            decreases 8 - b,
        {
            let mut r: usize = 0;
            while r <= 1
                invariant
                    input.wf(),
                    input.start.spec_in_field(),
                    dist_tables_ok(input, dist_table@),
                    1 <= a <= 7,
                    1 <= b <= 7,
                    0 <= r <= 2,
                    none_fails_before(input, a as nat, b as nat, r as nat),
                    ans@ == zeros() || (ans@.len() < MAX_COMMAND_NUM && covers(input, ans@)),
                    best_after(input, ((a - 1) * 14 + (b - 1) * 2 + r) as nat) == Ok::<Seq<char>, SolveError>(ans@),
                decreases 2 - r,
            {
                let ghost k = ((a - 1) * 14 + (b - 1) * 2 + r) as nat;
                proof {
                    lemma_candidate_index(a as nat, b as nat, r as nat);
                    assert(candidate_at(input, k) == candidate(input, a as nat, b as nat, r as nat));
                }
                match run_candidate(input, &dist_table, a, b, r) {
                    Err(e) => {
                        proof {
                            assert(best_after(input, k + 1) == Err::<Seq<char>, SolveError>(e));
                            lemma_best_err(input, k + 1, 98);
                            if e == SolveError::WallAhead {
                                assert(pattern_fails(input, a as nat, b as nat, r as nat));
                            }
                        }
                        return Err(e);
                    },
                    Ok(None) => {},
                    Ok(Some(repr)) => {
                        if repr.as_str().unicode_len() < ans.as_str().unicode_len() {
                            ans = repr;
                        }
                        proof {
                            assert(best_after(input, k + 1) == Ok::<Seq<char>, SolveError>(ans@));
                        }
                    },
                }
                r += 1;
            }
            b += 1;
        }
        a += 1;
    }
    proof {
        assert forall|a2: nat, b2: nat, r2: nat|
            1 <= a2 <= 7 && 1 <= b2 <= 7 && r2 <= 1 implies !#[trigger] pattern_fails(input, a2, b2, r2) by {
            assert(a2 < a);
        }
    }
    Ok(ans)
}

} // verus!
