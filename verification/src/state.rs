use vstd::prelude::*;

use crate::command::{Cmd, Command};
use crate::field::{Input, Robot};
use crate::geometry::{Coord, N};

verus! {

/// The mathematical value of a simulation state.
pub struct Run {
    pub robot: Robot,
    /// `gone[y][x]`: the robot has stood on `(x, y)`.
    pub gone: Seq<Seq<bool>>,
    /// Cells not yet stood on, as the simulation counts them.
    pub rest: int,
    /// Plain commands carried out so far.
    pub cnt: int,
}

/// Number of `false` entries in a row.
pub open spec fn count_row(r: Seq<bool>) -> nat
    decreases r.len(),
{
    if r.len() == 0 {
        0
    } else {
        count_row(r.subrange(0, r.len() - 1)) + if r[r.len() - 1] { 0nat } else { 1nat }
    }
}

/// Number of `false` entries in a grid.
pub open spec fn count_unvisited(g: Seq<Seq<bool>>) -> nat
    decreases g.len(),
{
    if g.len() == 0 {
        0
    } else {
        count_unvisited(g.subrange(0, g.len() - 1)) + count_row(g[g.len() - 1])
    }
}

/// `g` with the entry of `c` set.
pub open spec fn mark(g: Seq<Seq<bool>>, c: Coord) -> Seq<Seq<bool>> {
    g.update(c.y as int, g[c.y as int].update(c.x as int, true))
}

/// An `N` by `N` grid.
pub open spec fn is_square(g: Seq<Seq<bool>>) -> bool {
    g.len() == N && forall|y: int| 0 <= y < N ==> #[trigger] g[y].len() == N
}

/// Every cell set in `g1` is set in `g2`.
pub open spec fn grid_le(g1: Seq<Seq<bool>>, g2: Seq<Seq<bool>>) -> bool {
    forall|y: int, x: int|
        #![trigger g1[y][x]]
        #![trigger g2[y][x]]
        0 <= y < N && 0 <= x < N && g1[y][x] ==> g2[y][x]
}

/// Every cell of the field has been stood on.
pub open spec fn all_visited(g: Seq<Seq<bool>>) -> bool {
    forall|y: int, x: int| 0 <= y < N && 0 <= x < N ==> #[trigger] g[y][x]
}

/// One plain command: the robot moves or turns, the counter goes up, and the
/// cell moved onto is marked. `None` where the robot would walk into a wall,
/// the command is a repetition, or the counter would overflow.
pub open spec fn exec_step(input: &Input, s: Run, c: Cmd) -> Option<Run> {
    if s.cnt + 1 > usize::MAX {
        None
    } else {
        match s.robot.spec_step(input, c) {
            None => None,
            Some(r) => if c is F {
                let p = r.pos;
                Some(
                    Run {
                        robot: r,
                        gone: mark(s.gone, p),
                        rest: if s.gone[p.y as int][p.x as int] { s.rest } else { s.rest - 1 },
                        cnt: s.cnt + 1,
                    },
                )
            } else {
                Some(Run { robot: r, cnt: s.cnt + 1, ..s })
            },
        }
    }
}

/// Running one command; `None` where the run cannot go on: a move into a
/// wall, or the counter overflowing.
pub open spec fn run_cmd(input: &Input, s: Run, c: Cmd) -> Option<Run>
    decreases c, 0nat, 0nat,
{
    match c {
        Cmd::Iter(n, body) => run_iter(input, s, n, body),
        _ => exec_step(input, s, c),
    }
}

/// Running `body` `n` times.
pub open spec fn run_iter(input: &Input, s: Run, n: nat, body: Seq<Cmd>) -> Option<Run>
    decreases body, 2nat, n,
{
    if n == 0 {
        Some(s)
    } else {
        match run_iter(input, s, (n - 1) as nat, body) {
            Some(t) => run_seq(input, t, body),
            None => None,
        }
    }
}

/// Running the commands of `cs` one after the other.
pub open spec fn run_seq(input: &Input, s: Run, cs: Seq<Cmd>) -> Option<Run>
    decreases cs, 1nat, cs.len(),
{
    if cs.len() == 0 {
        Some(s)
    } else {
        match run_seq(input, s, cs.subrange(0, cs.len() - 1)) {
            Some(t) => run_cmd(input, t, cs[cs.len() - 1]),
            None => None,
        }
    }
}

} // verus!

verus! {

proof fn lemma_count_row_update(r: Seq<bool>, x: int)
    requires
        0 <= x < r.len(),
        !r[x],
    ensures
        count_row(r.update(x, true)) + 1 == count_row(r),
    decreases r.len(),
{
    let u = r.update(x, true);
    if x == r.len() - 1 {
        assert(u.subrange(0, u.len() - 1) =~= r.subrange(0, r.len() - 1));
    } else {
        lemma_count_row_update(r.subrange(0, r.len() - 1), x);
        assert(u.subrange(0, u.len() - 1) =~= r.subrange(0, r.len() - 1).update(x, true));
    }
}

proof fn lemma_count_update(g: Seq<Seq<bool>>, c: Coord)
    requires
        0 <= c.y < g.len(),
        0 <= c.x < g[c.y as int].len(),
        !g[c.y as int][c.x as int],
    ensures
        count_unvisited(mark(g, c)) + 1 == count_unvisited(g),
    decreases g.len(),
{
    let u = mark(g, c);
    let y = c.y as int;
    if y == g.len() - 1 {
        assert(u.subrange(0, u.len() - 1) =~= g.subrange(0, g.len() - 1));
        lemma_count_row_update(g[y], c.x as int);
    } else {
        lemma_count_update(g.subrange(0, g.len() - 1), c);
        assert(u.subrange(0, u.len() - 1) =~= mark(g.subrange(0, g.len() - 1), c));
    }
}

proof fn lemma_count_row_false(r: Seq<bool>)
    requires
        forall|i: int| 0 <= i < r.len() ==> !#[trigger] r[i],
    ensures
        count_row(r) == r.len(),
    decreases r.len(),
{
    if r.len() > 0 {
        lemma_count_row_false(r.subrange(0, r.len() - 1));
    }
}

proof fn lemma_count_all_false(g: Seq<Seq<bool>>)
    requires
        forall|y: int| 0 <= y < g.len() ==> #[trigger] g[y].len() == N,
        forall|y: int, x: int| 0 <= y < g.len() && 0 <= x < N ==> !#[trigger] g[y][x],
    ensures
        count_unvisited(g) == g.len() * N,
    decreases g.len(),
{
    if g.len() > 0 {
        lemma_count_all_false(g.subrange(0, g.len() - 1));
        lemma_count_row_false(g[g.len() - 1]);
    }
}

/// The simulation state: the robot, the cells it has stood on, how many
/// cells are left, and how many plain commands it has carried out.
#[derive(Clone)]
pub struct State {
    pub robot: Robot,
    pub gone: Vec<Vec<bool>>,
    pub rest_grid_num: usize,
    pub command_cnt: usize,
}

/// A grid of vectors taken by value.
pub open spec fn grid_view(g: Seq<Vec<bool>>) -> Seq<Seq<bool>> {
    g.map_values(|r: Vec<bool>| r@)
}

impl View for State {
    type V = Run;

    open spec fn view(&self) -> Run {
        Run {
            robot: self.robot,
            gone: grid_view(self.gone@),
            rest: self.rest_grid_num as int,
            cnt: self.command_cnt as int,
        }
    }
}

/// The starting state of a field: the robot at the start facing up, only the
/// start cell stood on.
pub open spec fn initial_run(input: &Input) -> Run {
    Run {
        robot: Robot { pos: input.start, direction: crate::geometry::Direction::Up },
        gone: mark(Seq::new(N as nat, |y: int| Seq::new(N as nat, |x: int| false)), input.start),
        rest: (N * N - 1) as int,
        cnt: 0,
    }
}

/// A run whose state can be that of a `State`: the robot in the field,
/// an `N` by `N` grid with the robot's cell set, and `rest` counting the
/// cells not yet stood on.
pub open spec fn run_wf(s: Run) -> bool {
    &&& s.robot.spec_in_field()
    &&& is_square(s.gone)
    &&& s.gone[s.robot.pos.y as int][s.robot.pos.x as int]
    &&& s.rest == count_unvisited(s.gone)
    &&& 0 <= s.cnt <= usize::MAX
}

impl State {
    pub open spec fn wf(&self) -> bool {
        &&& self.gone@.len() == N
        &&& forall|y: int| 0 <= y < N ==> #[trigger] self.gone@[y]@.len() == N
        &&& run_wf(self@)
    }

    pub fn new(input: &Input) -> (st: Self)
        requires
            input.wf(),
            input.start.spec_in_field(),
        ensures
            st.wf(),
            st@ == initial_run(input),
    {
        let mut gone: Vec<Vec<bool>> = Vec::new();
        for y in 0..N
            invariant
                gone@.len() == y,
                forall|yy: int| 0 <= yy < y ==> #[trigger] gone@[yy]@ == Seq::new(N as nat, |x: int| false),
        {
            let mut row: Vec<bool> = Vec::new();
            for x in 0..N
                invariant
                    row@ == Seq::new(x as nat, |i: int| false),
            {
                row.push(false);
                assert(row@ =~= Seq::new((x + 1) as nat, |i: int| false));
            }
            gone.push(row);
        }
        let ghost g0 = grid_view(gone@);
        assert(g0 =~= Seq::new(N as nat, |y: int| Seq::new(N as nat, |x: int| false)));
        input.start.set_matrix(&mut gone, true);
        let st = Self { robot: Robot::new(input), gone, rest_grid_num: N * N - 1, command_cnt: 0 };
        proof {
            assert(grid_view(st.gone@) =~= mark(g0, input.start));
            lemma_count_all_false(g0);
            lemma_count_update(g0, input.start);
        }
        st
    }
}

} // verus!

verus! {

/// Once a prefix of a command list fails, the whole list fails.
pub proof fn lemma_seq_prefix_none(input: &Input, s: Run, cs: Seq<Cmd>, i: int)
    requires
        0 <= i <= cs.len(),
        run_seq(input, s, cs.subrange(0, i)) is None,
    ensures
        run_seq(input, s, cs) is None,
    decreases cs.len(),
{
    if i == cs.len() {
        assert(cs.subrange(0, i) =~= cs);
    } else {
        let p = cs.subrange(0, cs.len() - 1);
        assert(p.subrange(0, i) =~= cs.subrange(0, i));
        lemma_seq_prefix_none(input, s, p, i);
    }
}

/// Once `k` repetitions fail, more repetitions fail too.
pub proof fn lemma_iter_none(input: &Input, s: Run, k: nat, n: nat, body: Seq<Cmd>)
    requires
        k <= n,
        run_iter(input, s, k, body) is None,
    ensures
        run_iter(input, s, n, body) is None,
    decreases n,
{
    if k < n {
        lemma_iter_none(input, s, k, (n - 1) as nat, body);
    }
}

/// Running the first `i + 1` commands is running the first `i`, then command `i`.
pub proof fn lemma_seq_step(input: &Input, s: Run, cs: Seq<Cmd>, i: int)
    requires
        0 <= i < cs.len(),
    ensures
        run_seq(input, s, cs.subrange(0, i + 1)) == match run_seq(input, s, cs.subrange(0, i)) {
            Some(t) => run_cmd(input, t, cs[i]),
            None => None,
        },
{
    assert(cs.subrange(0, i + 1).subrange(0, i) =~= cs.subrange(0, i));
}

/// The state in which running `c` from `s` stops where it cannot go on: a
/// plain command that cannot be carried out leaves the state as it is.
pub open spec fn stuck_cmd(input: &Input, s: Run, c: Cmd) -> Run
    decreases c, 0nat, 0nat,
{
    match c {
        Cmd::Iter(n, body) => stuck_iter(input, s, n, body),
        _ => s,
    }
}

/// The state in which `n` rounds of `body` stop, where they cannot go on.
pub open spec fn stuck_iter(input: &Input, s: Run, n: nat, body: Seq<Cmd>) -> Run
    decreases body, 2nat, n,
{
    if n == 0 {
        s
    } else {
        match run_iter(input, s, (n - 1) as nat, body) {
            Some(t) => stuck_seq(input, t, body),
            None => stuck_iter(input, s, (n - 1) as nat, body),
        }
    }
}

/// The state in which the commands of `cs` stop, where they cannot go on.
pub open spec fn stuck_seq(input: &Input, s: Run, cs: Seq<Cmd>) -> Run
    decreases cs, 1nat, cs.len(),
{
    if cs.len() == 0 {
        s
    } else {
        match run_seq(input, s, cs.subrange(0, cs.len() - 1)) {
            Some(t) => stuck_cmd(input, t, cs[cs.len() - 1]),
            None => stuck_seq(input, s, cs.subrange(0, cs.len() - 1)),
        }
    }
}

/// Where the first `i` commands run to `t` and command `i` fails from
/// there, the list stops where that command stops.
proof fn lemma_stuck_seq_at(input: &Input, s: Run, cs: Seq<Cmd>, i: int, t: Run)
    requires
        0 <= i < cs.len(),
        run_seq(input, s, cs.subrange(0, i)) == Some(t),
        run_cmd(input, t, cs[i]) is None,
    ensures
        stuck_seq(input, s, cs) == stuck_cmd(input, t, cs[i]),
    decreases cs.len(),
{
    let p = cs.subrange(0, cs.len() - 1);
    if i < cs.len() - 1 {
        lemma_seq_step(input, s, p, i);
        assert(p.subrange(0, i) =~= cs.subrange(0, i));
        lemma_seq_prefix_none(input, s, p, i + 1);
        lemma_stuck_seq_at(input, s, p, i, t);
    } else {
        assert(p =~= cs.subrange(0, i));
    }
}

/// Where `k` rounds run to `t` and the next round fails, `n > k` rounds stop
/// where that round stops.
proof fn lemma_stuck_iter_at(input: &Input, s: Run, n: nat, body: Seq<Cmd>, k: nat, t: Run)
    requires
        k < n,
        run_iter(input, s, k, body) == Some(t),
        run_seq(input, t, body) is None,
    ensures
        stuck_iter(input, s, n, body) == stuck_seq(input, t, body),
    decreases n,
{
    if k < n - 1 {
        assert(run_iter(input, s, k + 1, body) is None);
        lemma_iter_none(input, s, k + 1, (n - 1) as nat, body);
        lemma_stuck_iter_at(input, s, (n - 1) as nat, body, k, t);
    }
}

/// A repetition with count zero, or with an empty body, leaves the state as
/// it is.
pub proof fn lemma_iter_nothing(input: &Input, s: Run, n: nat, body: Seq<Cmd>)
    ensures
        run_cmd(input, s, Cmd::Iter(0, body)) == Some(s),
        run_cmd(input, s, Cmd::Iter(n, Seq::empty())) == Some(s),
    decreases n,
{
    if n > 0 {
        lemma_iter_nothing(input, s, (n - 1) as nat, body);
    }
}

/// Each repetition of a body, from any state, is the body run once more
/// after the repetitions before it, command by command.
pub proof fn lemma_iter_unfold(input: &Input, s: Run, n: nat, body: Seq<Cmd>)
    ensures
        run_cmd(input, s, Cmd::Iter(n + 1, body)) == match run_cmd(input, s, Cmd::Iter(n, body)) {
            Some(t) => run_seq(input, t, body),
            None => None,
        },
{
}

impl State {
    /// Runs `command`; returns `false`, leaving the state where the run
    /// stopped, exactly where the run stops with a panic (a move into a wall,
    /// or the counter overflowing).
    pub fn run_command(&mut self, command: &Command, input: &Input) -> (ok: bool)
        requires
            input.wf(),
            old(self).wf(),
        ensures
            final(self).wf(),
            ok == run_cmd(input, old(self)@, command.model()) is Some,
            ok ==> Some(final(self)@) == run_cmd(input, old(self)@, command.model()),
            !ok ==> final(self)@ == stuck_cmd(input, old(self)@, command.model()),
            grid_le(old(self)@.gone, final(self)@.gone),
            final(self)@.rest <= old(self)@.rest,
            final(self)@.gone == old(self)@.gone || final(self)@.rest < old(self)@.rest,
        decreases command,
    {
        let ghost s0 = self@;
        match command {
            Command::Iter(n, coms) => {
                let ghost body = command.model()->Iter_1;
                assert(body.len() == coms@.len());
                assert(forall|i: int| 0 <= i < coms@.len() ==> body[i] == coms@[i].model());
                let mut k: usize = 0;
                while k < *n
                    invariant
                        input.wf(),
                        self.wf(),
                        0 <= k <= *n,
                        old(self)@ == s0,
                        *command == Command::Iter(*n, *coms),
                        command.model() == Cmd::Iter(*n as nat, body),
                        body.len() == coms@.len(),
                        forall|i: int| 0 <= i < coms@.len() ==> body[i] == #[trigger] coms@[i].model(),
                        run_iter(input, s0, k as nat, body) == Some(self@),
                        grid_le(s0.gone, self@.gone),
                        self@.rest <= s0.rest,
                        self@.gone == s0.gone || self@.rest < s0.rest,
                    decreases *n - k,
                {
                    let ghost sk = self@;
                    let mut i: usize = 0;
                    while i < coms.len()
                        invariant
                            input.wf(),
                            self.wf(),
                            0 <= k < *n,
                            0 <= i <= coms@.len(),
                            old(self)@ == s0,
                            *command == Command::Iter(*n, *coms),
                            command.model() == Cmd::Iter(*n as nat, body),
                            body.len() == coms@.len(),
                            forall|i: int| 0 <= i < coms@.len() ==> body[i] == #[trigger] coms@[i].model(),
                            run_iter(input, s0, k as nat, body) == Some(sk),
                            run_seq(input, sk, body.subrange(0, i as int)) == Some(self@),
                            grid_le(s0.gone, self@.gone),
                            self@.rest <= s0.rest,
                            self@.gone == s0.gone || self@.rest < s0.rest,
                        decreases coms@.len() - i,
                    {
                        let ghost si = self@;
                        proof {
                            assert(decreases_to!(*command => *coms));
                            vstd::std_specs::vec::axiom_vec_index_decreases(*coms, i as int);
                        }
                        let ok = self.run_command(&coms[i], input);
                        proof {
                            lemma_seq_step(input, sk, body, i as int);
                        }
                        if !ok {
                            proof {
                                assert(run_cmd(input, si, body[i as int]) is None);
                                assert(run_seq(input, sk, body.subrange(0, i + 1)) is None);
                                lemma_seq_prefix_none(input, sk, body, i + 1);
                                assert(run_seq(input, sk, body) is None);
                                assert(run_iter(input, s0, (k + 1) as nat, body) is None);
                                lemma_iter_none(input, s0, (k + 1) as nat, *n as nat, body);
                                assert(run_cmd(input, s0, command.model()) == run_iter(input, s0, *n as nat, body));
                                lemma_stuck_seq_at(input, sk, body, i as int, si);
                                lemma_stuck_iter_at(input, s0, *n as nat, body, k as nat, sk);
                            }
                            return false;
                        }
                        i += 1;
                    }
                    proof {
                        assert(body.subrange(0, body.len() as int) =~= body);
                    }
                    k += 1;
                }
                true
            },
            Command::F => {
                if self.command_cnt == usize::MAX {
                    return false;
                }
                if !self.robot.can_progress(input) {
                    return false;
                }
                self.robot.do_command(command, input);
                self.command_cnt += 1;
                let p = self.robot.pos;
                if !*p.access_matrix(&self.gone) {
                    proof {
                        lemma_count_update(s0.gone, p);
                    }
                    self.rest_grid_num -= 1;
                    p.set_matrix(&mut self.gone, true);
                    proof {
                        assert(self@.gone =~~= mark(s0.gone, p));
                    }
                } else {
                    proof {
                        assert(s0.gone =~~= mark(s0.gone, p));
                    }
                }
                true
            },
            _ => {
                if self.command_cnt == usize::MAX {
                    return false;
                }
                self.command_cnt += 1;
                self.robot.do_command(command, input);
                true
            },
        }
    }

    /// Runs `command`; a run that stops with a panic is excluded.
    pub fn do_command(&mut self, command: &Command, input: &Input)
        requires
            input.wf(),
            old(self).wf(),
            run_cmd(input, old(self)@, command.model()) is Some,
        ensures
            final(self).wf(),
            Some(final(self)@) == run_cmd(input, old(self)@, command.model()),
            grid_le(old(self)@.gone, final(self)@.gone),
            final(self)@.rest <= old(self)@.rest,
            final(self)@.gone == old(self)@.gone || final(self)@.rest < old(self)@.rest,
    {
        let ok = self.run_command(command, input);
    }
}

} // verus!

verus! {

/// The cell with row-major number `k`.
pub open spec fn cell_of(k: int) -> Coord {
    Coord { x: (k % (N as int)) as isize, y: (k / (N as int)) as isize }
}

/// The cells not yet stood on among the first `k` in row-major order.
pub open spec fn not_gone_prefix(g: Seq<Seq<bool>>, k: int) -> Seq<Coord>
    decreases k,
{
    if k <= 0 {
        Seq::empty()
    } else {
        let c = cell_of(k - 1);
        not_gone_prefix(g, k - 1) + if !g[c.y as int][c.x as int] {
            seq![c]
        } else {
            Seq::empty()
        }
    }
}

/// The cells not yet stood on, row by row from the top, each row from the left.
pub open spec fn not_gone_cells(g: Seq<Seq<bool>>) -> Seq<Coord> {
    not_gone_prefix(g, (N * N) as int)
}

/// The listed cells are exactly the cells of the field not yet stood on.
pub proof fn lemma_not_gone_prefix(g: Seq<Seq<bool>>, k: int)
    requires
        0 <= k <= N * N,
    ensures
        forall|i: int|
            0 <= i < not_gone_prefix(g, k).len() ==> (#[trigger] not_gone_prefix(g, k)[i]).spec_in_field()
                && !g[not_gone_prefix(g, k)[i].y as int][not_gone_prefix(g, k)[i].x as int],
        forall|y: int, x: int|
            0 <= y < N && 0 <= x < N && y * N + x < k && !#[trigger] g[y][x] ==> not_gone_prefix(
                g,
                k,
            ).contains(Coord { x: x as isize, y: y as isize }),
    decreases k,
{
    if k > 0 {
        lemma_not_gone_prefix(g, k - 1);
        let c = cell_of(k - 1);
        let prev = not_gone_prefix(g, k - 1);
        let cur = not_gone_prefix(g, k);
        assert forall|y: int, x: int|
            0 <= y < N && 0 <= x < N && y * N + x < k && !#[trigger] g[y][x] implies cur.contains(
                Coord { x: x as isize, y: y as isize },
            ) by {
            if y * N + x < k - 1 {
                let j = choose|j: int| 0 <= j < prev.len() && prev[j] == Coord { x: x as isize, y: y as isize };
                assert(cur[j] == prev[j]);
            } else {
                assert((y * N + x) / (N as int) == y);
                assert((y * N + x) % (N as int) == x);
                assert(cur[prev.len() as int] == c);
            }
        }
    }
}

/// The cells not yet stood on before cell `(x, y)` in row-major order are as
/// many as the `false` entries of the rows above and of row `y` left of `x`.
proof fn lemma_not_gone_prefix_len(g: Seq<Seq<bool>>, y: int, x: int)
    requires
        is_square(g),
        0 <= y < N,
        0 <= x <= N,
    ensures
        not_gone_prefix(g, y * N + x).len() == count_unvisited(g.subrange(0, y)) + count_row(
            g[y].subrange(0, x),
        ),
    decreases 21 * y + x,
{
    if x > 0 {
        lemma_not_gone_prefix_len(g, y, x - 1);
        let k = y * N + x;
        assert((k - 1) / (N as int) == y);
        assert((k - 1) % (N as int) == x - 1);
        assert(g[y].subrange(0, x).subrange(0, x - 1) =~= g[y].subrange(0, x - 1));
    } else if y > 0 {
        lemma_not_gone_prefix_len(g, y - 1, N as int);
        assert(g.subrange(0, y).subrange(0, y - 1) =~= g.subrange(0, y - 1));
        assert(g[y - 1].subrange(0, N as int) =~= g[y - 1]);
        assert(g[y].subrange(0, 0).len() == 0);
    } else {
        assert(g.subrange(0, 0).len() == 0);
        assert(g[0].subrange(0, 0).len() == 0);
    }
}

/// In a square grid, the cells not yet stood on are as many as the `false`
/// entries.
pub proof fn lemma_not_gone_len(g: Seq<Seq<bool>>)
    requires
        is_square(g),
    ensures
        not_gone_cells(g).len() == count_unvisited(g),
{
    lemma_not_gone_prefix_len(g, N - 1, N as int);
    assert(g[N - 1].subrange(0, N as int) =~= g[N - 1]);
    assert(g.subrange(0, N as int) =~= g);
    assert(g.subrange(0, N as int).subrange(0, N - 1) =~= g.subrange(0, N - 1));
}

impl State {
    /// The cells not yet stood on, in row-major order; as many as the state
    /// counts.
    pub fn get_not_gone_grids(&self) -> (res: Vec<Coord>)
        requires
            self.wf(),
        ensures
            res@ == not_gone_cells(self@.gone),
            res@.len() == self.rest_grid_num,
    {
        proof {
            lemma_not_gone_len(self@.gone);
        }
        let ghost g = self@.gone;
        let mut res: Vec<Coord> = Vec::new();
        for y in 0..N
            invariant
                self.wf(),
                g == self@.gone,
                res@ == not_gone_prefix(g, (y * N) as int),
        {
            for x in 0..N
                invariant
                    self.wf(),
                    g == self@.gone,
                    y < N,
                    res@ == not_gone_prefix(g, (y * N + x) as int),
            {
                proof {
                    let k = (y * N + x) as int;
                    assert(k / (N as int) == y);
                    assert(k % (N as int) == x);
                    assert(g[y as int][x as int] == self.gone@[y as int]@[x as int]);
                }
                if !self.gone[y][x] {
                    res.push(Coord::from_usize_pair((x, y)));
                }
                proof {
                    let k = (y * N + x) as int;
                    assert(res@ =~= not_gone_prefix(g, k + 1));
                }
            }
        }
        res
    }
}

} // verus!
