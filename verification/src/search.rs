use vstd::prelude::*;

use std::collections::VecDeque;

use crate::command::{cmd_wf, lemma_seq_wf, models, seq_wf, Cmd, Command};
use crate::compress::{lemma_total_f_append, lemma_total_f_single, total_f};
use crate::state::{exec_step, run_cmd, run_iter, run_seq, Run};
use crate::field::{is_move, reachable, walk, Input, Robot};
use crate::geometry::{Direction, N};
use crate::table::{at3, get3, lemma_index_set_bound, lemma_robot_index, new3, robot_index, set3, shape3};

verus! {

/// The three moves from `r` lead to robots that `marked` holds of: the two
/// turns, and the step forward where the way is open.
pub open spec fn closed_under(input: &Input, marked: spec_fn(Robot) -> bool, r: Robot) -> bool {
    &&& marked(Robot { direction: r.direction.spec_right(), ..r })
    &&& marked(Robot { direction: r.direction.spec_left(), ..r })
    &&& r.spec_can_progress(input) ==> marked(r.spec_forward())
}

/// A set of robots that holds `a` and is closed under the moves holds every
/// robot reachable from `a`.
pub proof fn lemma_closed_reach(input: &Input, marked: spec_fn(Robot) -> bool, a: Robot, cs: Seq<Cmd>)
    requires
        a.spec_in_field(),
        marked(a),
        forall|r: Robot| r.spec_in_field() && #[trigger] marked(r) ==> closed_under(input, marked, r),
        forall|i: int| 0 <= i < cs.len() ==> #[trigger] is_move(cs[i]),
    ensures
        walk(input, a, cs) matches Some(b) ==> b.spec_in_field() && marked(b),
    decreases cs.len(),
{
    if cs.len() > 0 {
        let p = cs.subrange(0, cs.len() - 1);
        assert forall|i: int| 0 <= i < p.len() implies #[trigger] is_move(p[i]) by {
            assert(is_move(cs[i]));
        }
        lemma_closed_reach(input, marked, a, p);
        assert(is_move(cs[cs.len() - 1]));
    }
}

/// A closed set that holds `a` holds every robot `b` reachable from `a`.
pub proof fn lemma_reachable_marked(input: &Input, marked: spec_fn(Robot) -> bool, a: Robot, b: Robot)
    requires
        a.spec_in_field(),
        marked(a),
        forall|r: Robot| r.spec_in_field() && #[trigger] marked(r) ==> closed_under(input, marked, r),
        reachable(input, a, b),
    ensures
        marked(b),
{
    let cs = choose|cs: Seq<Cmd>|
        (forall|i: int| 0 <= i < cs.len() ==> #[trigger] is_move(cs[i])) && #[trigger] walk(input, a, cs)
            == Some(b);
    lemma_closed_reach(input, marked, a, cs);
}

/// Robot `r` stands in some entry of the queue.
pub open spec fn queued<D, E>(dq: Seq<(Robot, D, E)>, r: Robot) -> bool {
    exists|j: int| 0 <= j < dq.len() && (#[trigger] dq[j]).0 == r
}

} // verus!

verus! {

/// The robots that a distance table has reached.
pub open spec fn reached(t: Seq<Vec<Vec<usize>>>) -> spec_fn(Robot) -> bool {
    |r: Robot| at3(t, r) != usize::MAX
}

/// What the breadth-first search of `distance_table` keeps: the table has
/// its shape, `seen` numbers the reached robots, every reached robot is
/// reachable from `start` and its entry is at most `seen.len()`, and every
/// queued robot is reached, with bounded distance and run length.
pub open spec fn dist_inv(
    input: &Input,
    start: Robot,
    t: Seq<Vec<Vec<usize>>>,
    dq: Seq<(Robot, usize, usize)>,
    seen: Set<int>,
) -> bool {
    &&& shape3(t)
    &&& seen.finite()
    &&& forall|i: int| #[trigger] seen.contains(i) ==> 0 <= i < 4 * N * N
    &&& forall|r: Robot| r.spec_in_field() ==> (seen.contains(robot_index(r)) <==> #[trigger] at3(t, r) != usize::MAX)
    &&& forall|r: Robot|
        r.spec_in_field() && #[trigger] at3(t, r) != usize::MAX ==> at3(t, r) <= seen.len() && reachable(
            input,
            start,
            r,
        )
    &&& forall|j: int|
        0 <= j < dq.len() ==> {
            &&& (#[trigger] dq[j]).0.spec_in_field()
            &&& at3(t, dq[j].0) != usize::MAX
            &&& dq[j].1 <= seen.len()
            &&& dq[j].2 <= seen.len()
        }
}

/// Every reached robot other than `pending` is queued or has all its moves reached.
pub open spec fn dist_closed(
    input: &Input,
    t: Seq<Vec<Vec<usize>>>,
    dq: Seq<(Robot, usize, usize)>,
    pending: Option<Robot>,
) -> bool {
    forall|r: Robot|
        r.spec_in_field() && #[trigger] at3(t, r) != usize::MAX ==> pending == Some(r) || queued(dq, r)
            || closed_under(input, reached(t), r)
}

/// Reaching a new robot and queueing it keeps the search's bookkeeping.
proof fn lemma_dist_mark(
    input: &Input,
    start: Robot,
    t: Seq<Vec<Vec<usize>>>,
    dq: Seq<(Robot, usize, usize)>,
    seen: Set<int>,
    pending: Option<Robot>,
    t2: Seq<Vec<Vec<usize>>>,
    dq2: Seq<(Robot, usize, usize)>,
    r: Robot,
    v: usize,
    p: usize,
    front: bool,
)
    requires
        dist_inv(input, start, t, dq, seen),
        dist_closed(input, t, dq, pending),
        r.spec_in_field(),
        at3(t, r) == usize::MAX,
        reachable(input, start, r),
        v <= seen.len() + 1,
        p <= seen.len() + 1,
        v != usize::MAX,
        shape3(t2),
        forall|r2: Robot| r2.spec_in_field() ==> #[trigger] at3(t2, r2) == if r2 == r { v } else { at3(t, r2) },
        dq2 == if front { seq![(r, v, p)] + dq } else { dq.push((r, v, p)) },
    ensures
        dist_inv(input, start, t2, dq2, seen.insert(robot_index(r))),
        dist_closed(input, t2, dq2, pending),
{
    let seen2 = seen.insert(robot_index(r));
    lemma_robot_index(r, r);
    assert(!seen.contains(robot_index(r)));
    assert(seen2.len() == seen.len() + 1);
    assert forall|r2: Robot| r2.spec_in_field() implies (seen2.contains(robot_index(r2)) <==> #[trigger] at3(
        t2,
        r2,
    ) != usize::MAX) by {
        lemma_robot_index(r, r2);
    }
    assert forall|j: int| 0 <= j < dq2.len() implies {
        &&& (#[trigger] dq2[j]).0.spec_in_field()
        &&& at3(t2, dq2[j].0) != usize::MAX
        &&& dq2[j].1 <= seen2.len()
        &&& dq2[j].2 <= seen2.len()
    } by {
        if front {
            if j > 0 {
                assert(dq2[j] == dq[j - 1]);
            }
        } else {
            if j < dq.len() {
                assert(dq2[j] == dq[j]);
            }
        }
    }
    assert forall|r2: Robot|
        r2.spec_in_field() && #[trigger] at3(t2, r2) != usize::MAX implies pending == Some(r2) || queued(
            dq2,
            r2,
        ) || closed_under(input, reached(t2), r2) by {
        if r2 == r {
            if front {
                assert(dq2[0].0 == r);
            } else {
                assert(dq2[dq.len() as int].0 == r);
            }
        } else {
            assert(at3(t, r2) != usize::MAX);
            if queued(dq, r2) {
                let j = choose|j: int| 0 <= j < dq.len() && (#[trigger] dq[j]).0 == r2;
                if front {
                    assert(dq2[j + 1] == dq[j]);
                } else {
                    assert(dq2[j] == dq[j]);
                }
            } else if pending != Some(r2) {
                assert(closed_under(input, reached(t), r2));
                let rr = Robot { direction: r2.direction.spec_right(), ..r2 };
                let rl = Robot { direction: r2.direction.spec_left(), ..r2 };
                assert(at3(t2, rr) != usize::MAX);
                assert(at3(t2, rl) != usize::MAX);
                if r2.spec_can_progress(input) {
                    assert(at3(t2, r2.spec_forward()) != usize::MAX);
                }
            }
        }
    }
}

} // verus!

verus! {

/// The state of the 0-1 breadth-first search of `distance_table`: the cost
/// found so far for each place and heading (`usize::MAX` where none yet), and
/// the queue of robots, each with its cost and the number of forward steps in
/// a row that brought it there.
pub struct DistSearch {
    pub cost: spec_fn(Robot) -> usize,
    pub queue: Seq<(Robot, usize, usize)>,
}

/// Where `r` has no cost yet, gives it cost `v` and queues it with run
/// length `p`, at the front or at the back; else leaves the search as it is.
pub open spec fn dist_relax(st: DistSearch, r: Robot, v: usize, p: usize, front: bool) -> DistSearch {
    if (st.cost)(r) == usize::MAX {
        DistSearch {
            cost: |x: Robot| if x == r { v } else { (st.cost)(x) },
            queue: if front { seq![(r, v, p)] + st.queue } else { st.queue.push((r, v, p)) },
        }
    } else {
        st
    }
}

/// One round of the search: the front robot leaves the queue, then its right
/// turn and its left turn get its cost plus one, then the step forward, where
/// the way is open, gets its cost plus one at the back of the queue within
/// the first two steps in a row, and its cost unchanged at the front after
/// that.
pub open spec fn dist_step(input: &Input, st: DistSearch) -> DistSearch {
    if st.queue.len() == 0 {
        st
    } else {
        let (r, d, ip) = st.queue[0];
        let s0 = DistSearch { cost: st.cost, queue: st.queue.subrange(1, st.queue.len() as int) };
        let s1 = dist_relax(s0, Robot { direction: r.direction.spec_right(), ..r }, (d + 1) as usize, 0, false);
        let s2 = dist_relax(s1, Robot { direction: r.direction.spec_left(), ..r }, (d + 1) as usize, 0, false);
        if r.spec_can_progress(input) {
            if ip <= 1 {
                dist_relax(s2, r.spec_forward(), (d + 1) as usize, (ip + 1) as usize, false)
            } else {
                dist_relax(s2, r.spec_forward(), d, (ip + 1) as usize, true)
            }
        } else {
            s2
        }
    }
}

/// At most `fuel` rounds of the search, stopping when the queue is empty.
pub open spec fn dist_rounds(input: &Input, st: DistSearch, fuel: nat) -> DistSearch
    decreases fuel,
{
    if fuel == 0 || st.queue.len() == 0 {
        st
    } else {
        dist_rounds(input, dist_step(input, st), (fuel - 1) as nat)
    }
}

/// The search from `start`: only `start` has a cost, 0, and it alone is queued.
pub open spec fn dist_init(start: Robot) -> DistSearch {
    DistSearch {
        cost: |x: Robot| if x == start { 0 } else { usize::MAX },
        queue: seq![(start, 0usize, 0usize)],
    }
}

/// The costs that the search from `start` ends with; each robot enters the
/// queue at most once, so `4 N N` rounds empty it.
pub open spec fn dist_spec(input: &Input, start: Robot) -> spec_fn(Robot) -> usize {
    dist_rounds(input, dist_init(start), (4 * N * N) as nat).cost
}

/// The steps forward at the end of a list of moves.
pub open spec fn trailing_steps(cs: Seq<Cmd>) -> nat
    decreases cs.len(),
{
    if cs.len() == 0 {
        0
    } else if cs.last() is F {
        trailing_steps(cs.drop_last()) + 1
    } else {
        0
    }
}

/// What a list of moves costs: 1 for each turn, and 1 for each step forward
/// but those that come after two or more steps forward in a row, which are
/// free.
pub open spec fn move_cost(cs: Seq<Cmd>) -> nat
    decreases cs.len(),
{
    if cs.len() == 0 {
        0
    } else {
        move_cost(cs.drop_last()) + if cs.last() is F && trailing_steps(cs.drop_last()) >= 2 {
            0nat
        } else {
            1nat
        }
    }
}

/// `cs` is a list of moves that brings the robot from `start` to `r` and
/// costs `v`.
pub open spec fn priced_walk(input: &Input, start: Robot, cs: Seq<Cmd>, r: Robot, v: int) -> bool {
    &&& forall|i: int| 0 <= i < cs.len() ==> #[trigger] is_move(cs[i])
    &&& walk(input, start, cs) == Some(r)
    &&& move_cost(cs) == v
}

/// What the search keeps after `k` rounds: every cost found, and every
/// queued cost and run length, is at most `k`; every cost found is what
/// some list of moves to that robot costs, and every queued entry comes
/// with such a list that ends in as many steps forward as its run length.
pub open spec fn dist_sound(input: &Input, start: Robot, st: DistSearch, k: int) -> bool {
    &&& forall|r: Robot|
        r.spec_in_field() && #[trigger] (st.cost)(r) != usize::MAX ==> (st.cost)(r) <= k && exists|cs: Seq<Cmd>|
            #[trigger] priced_walk(input, start, cs, r, (st.cost)(r) as int)
    &&& forall|j: int|
        0 <= j < st.queue.len() ==> {
            &&& (#[trigger] st.queue[j]).0.spec_in_field()
            &&& st.queue[j].1 <= k
            &&& st.queue[j].2 <= k
            &&& exists|cs: Seq<Cmd>|
                #[trigger] priced_walk(input, start, cs, st.queue[j].0, st.queue[j].1 as int) && trailing_steps(cs)
                    == st.queue[j].2
        }
}

proof fn lemma_dist_sound_weaken(input: &Input, start: Robot, st: DistSearch, k: int, k2: int)
    requires
        dist_sound(input, start, st, k),
        k <= k2,
    ensures
        dist_sound(input, start, st, k2),
{
}

proof fn lemma_relax_sound(
    input: &Input,
    start: Robot,
    st: DistSearch,
    k: int,
    r: Robot,
    v: usize,
    p: usize,
    front: bool,
    cs: Seq<Cmd>,
)
    requires
        dist_sound(input, start, st, k),
        r.spec_in_field(),
        v <= k,
        p <= k,
        priced_walk(input, start, cs, r, v as int),
        trailing_steps(cs) == p,
    ensures
        dist_sound(input, start, dist_relax(st, r, v, p, front), k),
{
    if (st.cost)(r) == usize::MAX {
        let st2 = dist_relax(st, r, v, p, front);
        assert forall|r2: Robot| r2.spec_in_field() && #[trigger] (st2.cost)(r2) != usize::MAX implies (st2.cost)(r2)
            <= k && exists|cs2: Seq<Cmd>| #[trigger] priced_walk(input, start, cs2, r2, (st2.cost)(r2) as int) by {
            if r2 == r {
                assert(priced_walk(input, start, cs, r2, (st2.cost)(r2) as int));
            } else {
                assert((st2.cost)(r2) == (st.cost)(r2));
            }
        }
        assert forall|j: int| 0 <= j < st2.queue.len() implies {
            &&& (#[trigger] st2.queue[j]).0.spec_in_field()
            &&& st2.queue[j].1 <= k
            &&& st2.queue[j].2 <= k
            &&& exists|cs2: Seq<Cmd>|
                #[trigger] priced_walk(input, start, cs2, st2.queue[j].0, st2.queue[j].1 as int) && trailing_steps(cs2)
                    == st2.queue[j].2
        } by {
            if front {
                if j == 0 {
                    assert(priced_walk(input, start, cs, st2.queue[j].0, st2.queue[j].1 as int));
                } else {
                    assert(st2.queue[j] == st.queue[j - 1]);
                }
            } else {
                if j == st.queue.len() {
                    assert(priced_walk(input, start, cs, st2.queue[j].0, st2.queue[j].1 as int));
                } else {
                    assert(st2.queue[j] == st.queue[j]);
                }
            }
        }
    }
}

/// A move added to a list of moves: where it goes, what it costs, and how
/// the run of steps at the end changes.
proof fn lemma_walk_push(input: &Input, start: Robot, cs: Seq<Cmd>, r: Robot, m: Cmd)
    requires
        forall|i: int| 0 <= i < cs.len() ==> #[trigger] is_move(cs[i]),
        walk(input, start, cs) == Some(r),
        is_move(m),
    ensures
        forall|i: int| 0 <= i < cs.push(m).len() ==> #[trigger] is_move(cs.push(m)[i]),
        walk(input, start, cs.push(m)) == r.spec_step(input, m),
        move_cost(cs.push(m)) == move_cost(cs) + if m is F && trailing_steps(cs) >= 2 {
            0nat
        } else {
            1nat
        },
        trailing_steps(cs.push(m)) == if m is F {
            trailing_steps(cs) + 1
        } else {
            0
        },
{
    assert(cs.push(m).subrange(0, cs.len() as int) =~= cs);
    assert(cs.push(m).drop_last() =~= cs);
    assert forall|i: int| 0 <= i < cs.push(m).len() implies #[trigger] is_move(cs.push(m)[i]) by {
        if i < cs.len() {
            assert(cs.push(m)[i] == cs[i]);
        }
    }
}

/// One round keeps what the search keeps, with one more round counted.
proof fn lemma_dist_step_sound(input: &Input, start: Robot, st: DistSearch, k: int)
    requires
        dist_sound(input, start, st, k),
        st.queue.len() > 0,
        0 <= k,
        k + 1 < usize::MAX,
    ensures
        dist_sound(input, start, dist_step(input, st), k + 1),
{
    let (r, d, ip) = st.queue[0];
    let cs0 = choose|cs: Seq<Cmd>| #[trigger] priced_walk(input, start, cs, r, d as int) && trailing_steps(cs) == ip;
    let s0 = DistSearch { cost: st.cost, queue: st.queue.subrange(1, st.queue.len() as int) };
    assert forall|j: int| 0 <= j < s0.queue.len() implies #[trigger] s0.queue[j] == st.queue[j + 1] by {}
    assert(dist_sound(input, start, s0, k)) by {
        assert forall|j: int| 0 <= j < s0.queue.len() implies {
            &&& (#[trigger] s0.queue[j]).0.spec_in_field()
            &&& s0.queue[j].1 <= k
            &&& s0.queue[j].2 <= k
            &&& exists|cs2: Seq<Cmd>|
                #[trigger] priced_walk(input, start, cs2, s0.queue[j].0, s0.queue[j].1 as int) && trailing_steps(cs2)
                    == s0.queue[j].2
        } by {
            assert(s0.queue[j] == st.queue[j + 1]);
        }
    }
    lemma_dist_sound_weaken(input, start, s0, k, k + 1);
    let rr = Robot { direction: r.direction.spec_right(), ..r };
    let rl = Robot { direction: r.direction.spec_left(), ..r };
    lemma_walk_push(input, start, cs0, r, Cmd::TurnR);
    lemma_relax_sound(input, start, s0, k + 1, rr, (d + 1) as usize, 0, false, cs0.push(Cmd::TurnR));
    let s1 = dist_relax(s0, rr, (d + 1) as usize, 0, false);
    lemma_walk_push(input, start, cs0, r, Cmd::TurnL);
    lemma_relax_sound(input, start, s1, k + 1, rl, (d + 1) as usize, 0, false, cs0.push(Cmd::TurnL));
    let s2 = dist_relax(s1, rl, (d + 1) as usize, 0, false);
    if r.spec_can_progress(input) {
        lemma_walk_push(input, start, cs0, r, Cmd::F);
        let f = r.spec_forward();
        if ip <= 1 {
            lemma_relax_sound(input, start, s2, k + 1, f, (d + 1) as usize, (ip + 1) as usize, false, cs0.push(Cmd::F));
        } else {
            lemma_relax_sound(input, start, s2, k + 1, f, d, (ip + 1) as usize, true, cs0.push(Cmd::F));
        }
    }
}

proof fn lemma_dist_rounds_sound(input: &Input, start: Robot, st: DistSearch, k: nat, fuel: nat)
    requires
        dist_sound(input, start, st, k as int),
        k + fuel <= 4 * N * N,
    ensures
        dist_sound(input, start, dist_rounds(input, st, fuel), (4 * N * N) as int),
    decreases fuel,
{
    if fuel == 0 || st.queue.len() == 0 {
        lemma_dist_sound_weaken(input, start, st, k as int, (4 * N * N) as int);
    } else {
        lemma_dist_step_sound(input, start, st, k as int);
        lemma_dist_rounds_sound(input, start, dist_step(input, st), k + 1, (fuel - 1) as nat);
    }
}

/// Every cost that the search from `start` finds is what some list of
/// turns and steps from `start` to that robot costs, where a turn costs 1
/// and a step costs 1 unless the two moves before it were steps; and it is
/// at most `4 N N`.
pub proof fn lemma_dist_spec_priced(input: &Input, start: Robot, r: Robot)
    requires
        start.spec_in_field(),
        r.spec_in_field(),
        dist_spec(input, start)(r) != usize::MAX,
    ensures
        dist_spec(input, start)(r) <= 4 * N * N,
        exists|cs: Seq<Cmd>| #[trigger] priced_walk(input, start, cs, r, dist_spec(input, start)(r) as int),
{
    let st = dist_init(start);
    assert(priced_walk(input, start, Seq::<Cmd>::empty(), start, 0));
    assert(trailing_steps(Seq::<Cmd>::empty()) == 0);
    assert(dist_sound(input, start, st, 0)) by {
        assert forall|r2: Robot| r2.spec_in_field() && #[trigger] (st.cost)(r2) != usize::MAX implies (st.cost)(r2)
            <= 0 && exists|cs2: Seq<Cmd>| #[trigger] priced_walk(input, start, cs2, r2, (st.cost)(r2) as int) by {
            assert(r2 == start);
            assert(priced_walk(input, start, Seq::<Cmd>::empty(), r2, (st.cost)(r2) as int));
        }
        assert(st.queue[0] == (start, 0usize, 0usize));
        assert(priced_walk(input, start, Seq::<Cmd>::empty(), st.queue[0].0, st.queue[0].1 as int));
    }
    lemma_dist_rounds_sound(input, start, st, 0, (4 * N * N) as nat);
}

/// The table and queue of `distance_table` are those of the search `gs`.
#[verifier::opaque]
pub open spec fn dist_agrees(t: Seq<Vec<Vec<usize>>>, dq: Seq<(Robot, usize, usize)>, gs: DistSearch) -> bool {
    &&& forall|r: Robot| r.spec_in_field() ==> #[trigger] at3(t, r) == (gs.cost)(r)
    &&& dq == gs.queue
}

/// Giving `r` a cost in the table, or leaving it where it has one, follows
/// the search.
proof fn lemma_relax_agrees(
    t: Seq<Vec<Vec<usize>>>,
    dq: Seq<(Robot, usize, usize)>,
    gs: DistSearch,
    t2: Seq<Vec<Vec<usize>>>,
    dq2: Seq<(Robot, usize, usize)>,
    r: Robot,
    v: usize,
    p: usize,
    front: bool,
)
    requires
        dist_agrees(t, dq, gs),
        r.spec_in_field(),
        at3(t, r) == usize::MAX ==> {
            &&& forall|r2: Robot| r2.spec_in_field() ==> #[trigger] at3(t2, r2) == if r2 == r { v } else { at3(t, r2) }
            &&& dq2 == if front { seq![(r, v, p)] + dq } else { dq.push((r, v, p)) }
        },
        at3(t, r) != usize::MAX ==> t2 == t && dq2 == dq,
    ensures
        dist_agrees(t2, dq2, dist_relax(gs, r, v, p, front)),
{
    reveal(dist_agrees);
}

/// Taking the front entry off the queue follows the search.
proof fn lemma_pop_agrees(
    t: Seq<Vec<Vec<usize>>>,
    dq: Seq<(Robot, usize, usize)>,
    gs: DistSearch,
    dq2: Seq<(Robot, usize, usize)>,
)
    requires
        dist_agrees(t, dq, gs),
        dq.len() > 0,
        dq2 == dq.subrange(1, dq.len() as int),
    ensures
        dist_agrees(t, dq2, DistSearch { cost: gs.cost, queue: gs.queue.subrange(1, gs.queue.len() as int) }),
        gs.queue[0] == dq[0],
        gs.queue.len() == dq.len(),
{
    reveal(dist_agrees);
}

/// The table's entries are the search's costs.
proof fn lemma_agrees_cost(t: Seq<Vec<Vec<usize>>>, dq: Seq<(Robot, usize, usize)>, gs: DistSearch)
    requires
        dist_agrees(t, dq, gs),
    ensures
        forall|r: Robot| r.spec_in_field() ==> #[trigger] at3(t, r) == (gs.cost)(r),
        dq == gs.queue,
{
    reveal(dist_agrees);
}

/// What a distance table from `start` states: its shape, 0 at `start`, an
/// entry other than `usize::MAX` (at most `4 N N`) exactly for the robots
/// reachable from `start`, each entry the cost that the search from `start`
/// gives, and each such cost that of some list of moves to the robot.
pub open spec fn dist_table_from(input: &Input, start: Robot, t: Seq<Vec<Vec<usize>>>) -> bool {
    &&& shape3(t)
    &&& at3(t, start) == 0
    &&& forall|r: Robot|
        r.spec_in_field() && #[trigger] at3(t, r) != usize::MAX ==> at3(t, r) <= 4 * N * N && reachable(
            input,
            start,
            r,
        )
    &&& forall|r: Robot| r.spec_in_field() && reachable(input, start, r) ==> #[trigger] at3(t, r) != usize::MAX
    &&& forall|r: Robot| r.spec_in_field() ==> #[trigger] at3(t, r) == dist_spec(input, start)(r)
    &&& forall|r: Robot|
        r.spec_in_field() && #[trigger] at3(t, r) != usize::MAX ==> exists|cs: Seq<Cmd>|
            #[trigger] priced_walk(input, start, cs, r, at3(t, r) as int)
}

/// For each place and heading, the cost at which a 0-1 breadth-first search
/// from `start` first reaches it, where a turn costs 1 and a step forward
/// costs 1 unless it continues a run of at least two steps; `usize::MAX`
/// where no sequence of moves leads there.
pub fn distance_table(input: &Input, start: Robot) -> (table: Vec<Vec<Vec<usize>>>)
    requires
        input.wf(),
        start.spec_in_field(),
    ensures
        dist_table_from(input, start, table@),
{
    let mut table = new3(usize::MAX);
    set3(&mut table, &start, 0);
    let mut deque: VecDeque<(Robot, usize, usize)> = VecDeque::new();
    deque.push_front((start, 0, 0));
    let ghost mut seen: Set<int> = Set::empty().insert(robot_index(start));
    let ghost mut gs = dist_init(start);
    let ghost mut fuel: nat = (4 * N * N) as nat;
    proof {
        reveal(dist_agrees);
        assert(deque@ =~= gs.queue);
        lemma_robot_index(start, start);
        crate::field::lemma_reachable_refl(input, start);
        assert forall|r: Robot| r.spec_in_field() implies (seen.contains(robot_index(r)) <==> #[trigger] at3(
            table@,
            r,
        ) != usize::MAX) by {
            lemma_robot_index(start, r);
        }
        assert(deque@[0].0 == start);
    }
    while deque.len() > 0
        invariant
            input.wf(),
            start.spec_in_field(),
            at3(table@, start) == 0,
            dist_inv(input, start, table@, deque@, seen),
            dist_closed(input, table@, deque@, None),
            dist_agrees(table@, deque@, gs),
            dist_rounds(input, gs, fuel) == dist_rounds(input, dist_init(start), (4 * N * N) as nat),
            fuel + seen.len() >= deque@.len() + 4 * N * N,
        decreases 3 * (4 * N * N - seen.len()) + deque@.len(),
    {
        let ghost gs_next = dist_step(input, gs);
        let ghost gs_start = gs;
        let ghost t_start = table@;
        proof {
            lemma_index_set_bound(seen);
        }
        let ghost prev = deque@;
        let (now_robot, dist, in_progress) = match deque.pop_front() {
            Some(e) => e,
            None => {
                return table;
            },
        };
        proof {
            assert(prev[0] == (now_robot, dist, in_progress));
            assert(deque@ =~= prev.subrange(1, prev.len() as int));
            lemma_pop_agrees(table@, prev, gs, deque@);
            gs = DistSearch { cost: gs.cost, queue: gs.queue.subrange(1, gs.queue.len() as int) };
            assert forall|j: int| 0 <= j < deque@.len() implies #[trigger] deque@[j] == prev[j + 1] by {}
            assert(dist_inv(input, start, table@, deque@, seen));
            assert forall|r: Robot|
                r.spec_in_field() && #[trigger] at3(table@, r) != usize::MAX implies Some(now_robot) == Some(r)
                    || queued(deque@, r) || closed_under(input, reached(table@), r) by {
                if queued(prev, r) {
                    let j = choose|j: int| 0 <= j < prev.len() && (#[trigger] prev[j]).0 == r;
                    if j > 0 {
                        assert(deque@[j - 1] == prev[j]);
                    }
                }
            }
            assert(reachable(input, start, now_robot));
            lemma_index_set_bound(seen);
        }
        // A quarter turn to the right.
        {
            let mut robot = now_robot;
            robot.do_command(&Command::TurnR, input);
            let ghost gs0 = gs;
            let ghost t0 = table@;
            let ghost dq0 = deque@;
            if get3(&table, &robot) == usize::MAX {
                proof {
                    crate::field::lemma_reachable_step(input, start, now_robot, Cmd::TurnR);
                }
                let ghost t_old = table@;
                let ghost dq_old = deque@;
                set3(&mut table, &robot, dist + 1);
                deque.push_back((robot, dist + 1, 0));
                proof {
                    lemma_dist_mark(input, start, t_old, dq_old, seen, Some(now_robot), table@, deque@, robot, (dist + 1) as usize, 0, false);
                    seen = seen.insert(robot_index(robot));
                    lemma_index_set_bound(seen);
                }
            }
            proof {
                lemma_relax_agrees(t0, dq0, gs0, table@, deque@, robot, (dist + 1) as usize, 0, false);
                gs = dist_relax(gs0, robot, (dist + 1) as usize, 0, false);
            }
        }
        // A quarter turn to the left.
        {
            let mut robot = now_robot;
            robot.do_command(&Command::TurnL, input);
            let ghost gs0 = gs;
            let ghost t0 = table@;
            let ghost dq0 = deque@;
            if get3(&table, &robot) == usize::MAX {
                proof {
                    crate::field::lemma_reachable_step(input, start, now_robot, Cmd::TurnL);
                }
                let ghost t_old = table@;
                let ghost dq_old = deque@;
                set3(&mut table, &robot, dist + 1);
                deque.push_back((robot, dist + 1, 0));
                proof {
                    lemma_dist_mark(input, start, t_old, dq_old, seen, Some(now_robot), table@, deque@, robot, (dist + 1) as usize, 0, false);
                    seen = seen.insert(robot_index(robot));
                    lemma_index_set_bound(seen);
                }
            }
            proof {
                lemma_relax_agrees(t0, dq0, gs0, table@, deque@, robot, (dist + 1) as usize, 0, false);
                gs = dist_relax(gs0, robot, (dist + 1) as usize, 0, false);
            }
        }
        // A step forward.
        if now_robot.can_progress(input) {
            let mut robot = now_robot;
            robot.do_command(&Command::F, input);
            let ghost gs0 = gs;
            let ghost t0 = table@;
            let ghost dq0 = deque@;
            if get3(&table, &robot) == usize::MAX {
                proof {
                    crate::field::lemma_reachable_step(input, start, now_robot, Cmd::F);
                }
                let ghost t_old = table@;
                let ghost dq_old = deque@;
                if in_progress <= 1 {
                    set3(&mut table, &robot, dist + 1);
                    deque.push_back((robot, dist + 1, in_progress + 1));
                    proof {
                        lemma_dist_mark(input, start, t_old, dq_old, seen, Some(now_robot), table@, deque@, robot, (dist + 1) as usize, (in_progress + 1) as usize, false);
                    }
                } else {
                    set3(&mut table, &robot, dist);
                    deque.push_front((robot, dist, in_progress + 1));
                    proof {
                        lemma_dist_mark(input, start, t_old, dq_old, seen, Some(now_robot), table@, deque@, robot, dist, (in_progress + 1) as usize, true);
                    }
                }
                proof {
                    seen = seen.insert(robot_index(robot));
                    lemma_index_set_bound(seen);
                }
            }
            proof {
                if in_progress <= 1 {
                    lemma_relax_agrees(t0, dq0, gs0, table@, deque@, robot, (dist + 1) as usize, (in_progress + 1) as usize, false);
                    gs = dist_relax(gs0, robot, (dist + 1) as usize, (in_progress + 1) as usize, false);
                } else {
                    lemma_relax_agrees(t0, dq0, gs0, table@, deque@, robot, dist, (in_progress + 1) as usize, true);
                    gs = dist_relax(gs0, robot, dist, (in_progress + 1) as usize, true);
                }
            }
        }
        proof {
            assert(gs == gs_next);
            assert(dist_rounds(input, gs_start, fuel) == dist_rounds(input, gs_next, (fuel - 1) as nat));
            fuel = (fuel - 1) as nat;
            let rr = Robot { direction: now_robot.direction.spec_right(), ..now_robot };
            let rl = Robot { direction: now_robot.direction.spec_left(), ..now_robot };
            assert(at3(table@, rr) != usize::MAX);
            assert(at3(table@, rl) != usize::MAX);
            assert(closed_under(input, reached(table@), now_robot));
        }
    }
    proof {
        lemma_agrees_cost(table@, deque@, gs);
        assert forall|r: Robot| r.spec_in_field() && #[trigger] at3(table@, r) != usize::MAX implies exists|
            cs: Seq<Cmd>,
        | #[trigger] priced_walk(input, start, cs, r, at3(table@, r) as int) by {
            assert(dist_rounds(input, gs, fuel) == gs);
            lemma_dist_spec_priced(input, start, r);
        }
        assert(dist_rounds(input, gs, fuel) == gs);
        lemma_index_set_bound(seen);
        assert forall|r: Robot| r.spec_in_field() && #[trigger] at3(table@, r) != usize::MAX implies closed_under(
            input,
            reached(table@),
            r,
        ) by {
            if queued(deque@, r) {
                let j = choose|j: int| 0 <= j < deque@.len() && (#[trigger] deque@[j]).0 == r;
            }
        }
        assert forall|r: Robot| r.spec_in_field() && reachable(input, start, r) implies #[trigger] at3(
            table@,
            r,
        ) != usize::MAX by {
            lemma_reachable_marked(input, reached(table@), start, r);
        }
    }
    table
}

} // verus!

verus! {

/// Robot `r` stands in some entry of the route queue.
pub open spec fn route_queued(dq: Seq<(Robot, Vec<Command>)>, r: Robot) -> bool {
    exists|j: int| 0 <= j < dq.len() && (#[trigger] dq[j]).0 == r
}

/// The route after one more step forward: a first step is `F`; a step after
/// `F` turns it into two steps; a step after a repetition of `F` adds one to
/// the count; any other route gets an `F` appended.
pub open spec fn forward_history(hm: Seq<Cmd>) -> Seq<Cmd> {
    if hm.len() == 0 {
        seq![Cmd::F]
    } else {
        let front = hm.subrange(0, hm.len() - 1);
        match hm[hm.len() - 1] {
            Cmd::F => front.push(Cmd::Iter(2, seq![Cmd::F])),
            Cmd::Iter(n, b) => if b == seq![Cmd::F] {
                front.push(Cmd::Iter(n + 1, seq![Cmd::F]))
            } else {
                hm.push(Cmd::F)
            },
            _ => hm.push(Cmd::F),
        }
    }
}

/// A step forward that lengthens a repetition costs nothing, so its route
/// goes to the front of the queue.
pub open spec fn forward_goes_front(hm: Seq<Cmd>) -> bool {
    hm.len() > 0 && (hm[hm.len() - 1] matches Cmd::Iter(_, b) && b == seq![Cmd::F])
}

/// Running `h.push(c)` is running `h`, then `c`.
pub proof fn lemma_run_seq_push(input: &Input, s: Run, h: Seq<Cmd>, c: Cmd)
    ensures
        run_seq(input, s, h.push(c)) == match run_seq(input, s, h) {
            Some(t) => run_cmd(input, t, c),
            None => None,
        },
{
    assert(h.push(c).subrange(0, h.len() as int) =~= h);
}

/// A route after one more step forward brings the robot one step further,
/// holds one more forward move, and stays well formed.
pub proof fn lemma_forward_history(input: &Input, base: Run, hm: Seq<Cmd>, t: Run)
    requires
        run_seq(input, base, hm) == Some(t),
        exec_step(input, t, Cmd::F) is Some,
    ensures
        run_seq(input, base, forward_history(hm)) == exec_step(input, t, Cmd::F),
        total_f(forward_history(hm)) == total_f(hm) + 1,
        seq_wf(hm) ==> seq_wf(forward_history(hm)),
{
    lemma_seq_wf(hm);
    lemma_seq_wf(forward_history(hm));
    if hm.len() == 0 {
        crate::compress::lemma_run_single(input, base, Cmd::F);
        lemma_total_f_single(Cmd::F);
    } else {
        let front = hm.subrange(0, hm.len() - 1);
        let last = hm[hm.len() - 1];
        assert(hm =~= front.push(last));
        assert(hm =~= front + seq![last]);
        assert(hm.push(Cmd::F) =~= hm + seq![Cmd::F]);
        assert(front.push(Cmd::Iter(2, seq![Cmd::F])) =~= front + seq![Cmd::Iter(2, seq![Cmd::F])]);
        lemma_run_seq_push(input, base, front, last);
        lemma_total_f_append(front, seq![last]);
        let t0 = run_seq(input, base, front).unwrap();
        match last {
            Cmd::F => {
                let blk = Cmd::Iter(2, seq![Cmd::F]);
                lemma_run_seq_push(input, base, front, blk);
                lemma_total_f_append(front, seq![blk]);
                lemma_total_f_single(blk);
                lemma_total_f_single(last);
                crate::compress::lemma_iter_f_add(input, t0, 1, 1);
                crate::compress::lemma_run_single(input, t0, Cmd::F);
                crate::compress::lemma_run_single(input, t, Cmd::F);
                assert(run_iter(input, t0, 0, seq![Cmd::F]) == Some(t0));
                assert(run_iter(input, t, 0, seq![Cmd::F]) == Some(t));
                assert(cmd_wf(blk)) by {
                    lemma_seq_wf(seq![Cmd::F]);
                }
            },
            Cmd::Iter(n, b) => {
                if b == seq![Cmd::F] {
                    let blk = Cmd::Iter(n + 1, seq![Cmd::F]);
                    assert(front.push(blk) =~= front + seq![blk]);
                    lemma_run_seq_push(input, base, front, blk);
                    lemma_total_f_append(front, seq![blk]);
                    lemma_total_f_single(blk);
                    lemma_total_f_single(last);
                    crate::compress::lemma_run_single(input, t, Cmd::F);
                    assert(cmd_wf(blk)) by {
                        lemma_seq_wf(seq![Cmd::F]);
                    }
                } else {
                    lemma_run_seq_push(input, base, hm, Cmd::F);
                    lemma_total_f_append(hm, seq![Cmd::F]);
                    lemma_total_f_single(Cmd::F);
                }
            },
            _ => {
                lemma_run_seq_push(input, base, hm, Cmd::F);
                lemma_total_f_append(hm, seq![Cmd::F]);
                lemma_total_f_single(Cmd::F);
            },
        }
    }
}

} // verus!

verus! {

/// A copy of a route: the same commands.
fn clone_history(history: &Vec<Command>) -> (h: Vec<Command>)
    ensures
        models(h@) == models(history@),
{
    let h = history.clone();
    assert(models(h@) =~= models(history@));
    h
}

/// Turns the robot by `command`; where that place and heading is new, marks
/// it and queues it at the back with the route extended by the turn.
pub fn rotate_transit(
    now_robot: &Robot,
    command: Command,
    dp: &mut Vec<Vec<Vec<bool>>>,
    deque: &mut VecDeque<(Robot, Vec<Command>)>,
    history: &Vec<Command>,
    input: &Input,
)
    requires
        now_robot.spec_in_field(),
        shape3(old(dp)@),
        command.model() is TurnL || command.model() is TurnR,
    ensures
        shape3(final(dp)@),
        ({
            let r2 = now_robot.spec_step(input, command.model()).unwrap();
            if at3(old(dp)@, r2) {
                final(dp)@ == old(dp)@ && final(deque)@ == old(deque)@
            } else {
                &&& forall|r: Robot|
                    r.spec_in_field() ==> #[trigger] at3(final(dp)@, r) == (r == r2 || at3(old(dp)@, r))
                &&& final(deque)@.len() == old(deque)@.len() + 1
                &&& final(deque)@.subrange(0, old(deque)@.len() as int) == old(deque)@
                &&& final(deque)@[old(deque)@.len() as int].0 == r2
                &&& models(final(deque)@[old(deque)@.len() as int].1@) == models(history@).push(command.model())
            }
        }),
{
    let ghost m = command.model();
    let mut robot = *now_robot;
    robot.do_command(&command, input);
    if !get3(dp, &robot) {
        set3(dp, &robot, true);
        let mut next_history = clone_history(history);
        next_history.push(command);
        proof {
            assert(models(next_history@) =~= models(history@).push(m));
        }
        let ghost before = deque@;
        deque.push_back((robot, next_history));
        proof {
            assert(deque@.subrange(0, before.len() as int) =~= before);
        }
    }
}

/// Steps the robot forward where the way is open; where that place and
/// heading is new, marks it and queues it with the route extended by the
/// step: at the front when the step lengthens a repetition, else at the back.
pub fn progress_transit(
    now_robot: &Robot,
    dp: &mut Vec<Vec<Vec<bool>>>,
    deque: &mut VecDeque<(Robot, Vec<Command>)>,
    history: &Vec<Command>,
    input: &Input,
)
    requires
        input.wf(),
        now_robot.spec_in_field(),
        shape3(old(dp)@),
        now_robot.spec_can_progress(input) && !at3(old(dp)@, now_robot.spec_forward()) && forward_goes_front(
            models(history@),
        ) ==> models(history@).last()->Iter_0 < usize::MAX,
    ensures
        shape3(final(dp)@),
        ({
            let r2 = now_robot.spec_forward();
            let hm = models(history@);
            if !now_robot.spec_can_progress(input) || at3(old(dp)@, r2) {
                final(dp)@ == old(dp)@ && final(deque)@ == old(deque)@
            } else {
                &&& forall|r: Robot|
                    r.spec_in_field() ==> #[trigger] at3(final(dp)@, r) == (r == r2 || at3(old(dp)@, r))
                &&& final(deque)@.len() == old(deque)@.len() + 1
                &&& if forward_goes_front(hm) {
                    &&& final(deque)@.subrange(1, final(deque)@.len() as int) == old(deque)@
                    &&& final(deque)@[0].0 == r2
                    &&& models(final(deque)@[0].1@) == forward_history(hm)
                } else {
                    &&& final(deque)@.subrange(0, old(deque)@.len() as int) == old(deque)@
                    &&& final(deque)@[old(deque)@.len() as int].0 == r2
                    &&& models(final(deque)@[old(deque)@.len() as int].1@) == forward_history(hm)
                }
            }
        }),
{
    if now_robot.can_progress(input) {
        let mut robot = *now_robot;
        let mut next_history = clone_history(history);
        robot.do_command(&Command::F, input);
        if !get3(dp, &robot) {
            set3(dp, &robot, true);
            let ghost hm = models(history@);
            let ghost before = deque@;
            if history.len() == 0 {
                next_history.push(Command::F);
                proof {
                    assert(models(next_history@) =~= forward_history(hm));
                }
                deque.push_back((robot, next_history));
                proof {
                    assert(deque@.subrange(0, before.len() as int) =~= before);
                }
            } else {
                let last = history.len() - 1;
                proof {
                    assert(hm[last as int] == history@[last as int].model());
                }
                match &history[last] {
                    Command::F => {
                        next_history.set(last, crate::command::f_block(2));
                        proof {
                            assert(models(next_history@) =~= forward_history(hm));
                        }
                        deque.push_back((robot, next_history));
                        proof {
                            assert(deque@.subrange(0, before.len() as int) =~= before);
                        }
                    },
                    Command::Iter(n, v) if v.len() == 1 && matches!(v[0], Command::F) => {
                        proof {
                            assert(hm[last as int]->Iter_1 =~= seq![Cmd::F]);
                        }
                        next_history.set(last, crate::command::f_block(*n + 1));
                        proof {
                            assert(models(next_history@) =~= forward_history(hm));
                        }
                        deque.push_front((robot, next_history));
                        proof {
                            assert(deque@.subrange(1, deque@.len() as int) =~= before);
                        }
                    },
                    _ => {
                        proof {
                            if forward_goes_front(hm) {
                                let b = hm[last as int]->Iter_1;
                                assert(b.len() == 1);
                                assert(b[0] == Cmd::F);
                                let c = history@[last as int];
                                assert(c is Iter);
                                let v = c->Iter_1;
                                assert(c.model()->Iter_1.len() == v@.len());
                                assert(c.model()->Iter_1[0] == v@[0].model());
                                assert(v@[0] is F);
                            }
                            assert(!(hm[last as int] is F));
                        }
                        next_history.push(Command::F);
                        proof {
                            assert(models(next_history@) =~= forward_history(hm));
                        }
                        deque.push_back((robot, next_history));
                        proof {
                            assert(deque@.subrange(0, before.len() as int) =~= before);
                        }
                    },
                }
            }
        }
    }
}

} // verus!

verus! {

/// A queued route is sound: it runs from `base` without fault and brings the
/// robot to the entry's place and heading, with fewer than `bound` plain
/// commands and forward moves, and every command well formed.
pub open spec fn route_entry_ok(input: &Input, base: Run, e: (Robot, Vec<Command>), bound: int) -> bool {
    let hm = models(e.1@);
    &&& e.0.spec_in_field()
    &&& seq_wf(hm)
    &&& total_f(hm) < bound
    &&& run_seq(input, base, hm) matches Some(t) && t.robot == e.0 && t.cnt < base.cnt + bound
}

/// The robots that the route search has marked.
pub open spec fn visited(dp: Seq<Vec<Vec<bool>>>) -> spec_fn(Robot) -> bool {
    |r: Robot| at3(dp, r)
}

/// What the route search keeps: the marks have their shape, `seen` numbers
/// the marked robots, and every queued entry is marked and sound.
pub open spec fn route_inv(
    input: &Input,
    base: Run,
    dp: Seq<Vec<Vec<bool>>>,
    dq: Seq<(Robot, Vec<Command>)>,
    seen: Set<int>,
) -> bool {
    &&& shape3(dp)
    &&& seen.finite()
    &&& forall|i: int| #[trigger] seen.contains(i) ==> 0 <= i < 4 * N * N
    &&& forall|r: Robot| r.spec_in_field() ==> (seen.contains(robot_index(r)) <==> #[trigger] at3(dp, r))
    &&& forall|j: int|
        0 <= j < dq.len() ==> at3(dp, (#[trigger] dq[j]).0) && route_entry_ok(input, base, dq[j], seen.len() as int)
}

/// Every marked robot other than `pending` is queued, or has all its moves
/// marked and stands off the goal.
pub open spec fn route_closed(
    input: &Input,
    goal: crate::geometry::Coord,
    dp: Seq<Vec<Vec<bool>>>,
    dq: Seq<(Robot, Vec<Command>)>,
    pending: Option<Robot>,
) -> bool {
    forall|r: Robot|
        r.spec_in_field() && #[trigger] at3(dp, r) ==> pending == Some(r) || route_queued(dq, r) || (
        closed_under(input, visited(dp), r) && r.pos != goal)
}

/// Marking a new robot and queueing its sound route keeps the search's bookkeeping.
proof fn lemma_route_mark(
    input: &Input,
    base: Run,
    goal: crate::geometry::Coord,
    dp: Seq<Vec<Vec<bool>>>,
    dq: Seq<(Robot, Vec<Command>)>,
    seen: Set<int>,
    pending: Option<Robot>,
    dp2: Seq<Vec<Vec<bool>>>,
    dq2: Seq<(Robot, Vec<Command>)>,
    e: (Robot, Vec<Command>),
    front: bool,
)
    requires
        route_inv(input, base, dp, dq, seen),
        route_closed(input, goal, dp, dq, pending),
        e.0.spec_in_field(),
        !at3(dp, e.0),
        route_entry_ok(input, base, e, seen.len() + 1int),
        shape3(dp2),
        forall|r2: Robot| r2.spec_in_field() ==> #[trigger] at3(dp2, r2) == (r2 == e.0 || at3(dp, r2)),
        dq2 == if front { seq![e] + dq } else { dq.push(e) },
    ensures
        route_inv(input, base, dp2, dq2, seen.insert(robot_index(e.0))),
        route_closed(input, goal, dp2, dq2, pending),
{
    let r = e.0;
    let seen2 = seen.insert(robot_index(r));
    lemma_robot_index(r, r);
    assert(!seen.contains(robot_index(r)));
    assert(seen2.len() == seen.len() + 1);
    assert forall|r2: Robot| r2.spec_in_field() implies (seen2.contains(robot_index(r2)) <==> #[trigger] at3(
        dp2,
        r2,
    )) by {
        lemma_robot_index(r, r2);
    }
    assert forall|j: int| 0 <= j < dq2.len() implies at3(dp2, (#[trigger] dq2[j]).0) && route_entry_ok(
        input,
        base,
        dq2[j],
        seen2.len() as int,
    ) by {
        if front {
            if j > 0 {
                assert(dq2[j] == dq[j - 1]);
            }
        } else {
            if j < dq.len() {
                assert(dq2[j] == dq[j]);
            }
        }
    }
    assert forall|r2: Robot| r2.spec_in_field() && #[trigger] at3(dp2, r2) implies pending == Some(r2)
        || route_queued(dq2, r2) || (closed_under(input, visited(dp2), r2) && r2.pos != goal) by {
        if r2 == r {
            if front {
                assert(dq2[0].0 == r);
            } else {
                assert(dq2[dq.len() as int].0 == r);
            }
        } else {
            assert(at3(dp, r2));
            if route_queued(dq, r2) {
                let j = choose|j: int| 0 <= j < dq.len() && (#[trigger] dq[j]).0 == r2;
                if front {
                    assert(dq2[j + 1] == dq[j]);
                } else {
                    assert(dq2[j] == dq[j]);
                }
            } else if pending != Some(r2) {
                assert(closed_under(input, visited(dp), r2));
                let rr = Robot { direction: r2.direction.spec_right(), ..r2 };
                let rl = Robot { direction: r2.direction.spec_left(), ..r2 };
                assert(at3(dp2, rr));
                assert(at3(dp2, rl));
                if r2.spec_can_progress(input) {
                    assert(at3(dp2, r2.spec_forward()));
                }
            }
        }
    }
}

} // verus!

verus! {

/// The state of the breadth-first search of `find_route`: the places and
/// headings marked so far, and the queue of robots with their routes.
pub struct RouteSearch {
    pub marked: spec_fn(Robot) -> bool,
    pub queue: Seq<(Robot, Seq<Cmd>)>,
}

/// Where `r` is not marked, marks it and queues it with route `h`, at the
/// front or at the back; else leaves the search as it is.
pub open spec fn route_mark(st: RouteSearch, r: Robot, h: Seq<Cmd>, front: bool) -> RouteSearch {
    if (st.marked)(r) {
        st
    } else {
        RouteSearch {
            marked: |x: Robot| x == r || (st.marked)(x),
            queue: if front { seq![(r, h)] + st.queue } else { st.queue.push((r, h)) },
        }
    }
}

/// What the search does with a robot `r` off the goal, taken off the queue
/// with route `h`: its left turn, then its right turn, each at the back of
/// the queue, then its step forward where the way is open, at the front
/// where the step lengthens a repetition of forward moves.
pub open spec fn route_expand(input: &Input, st: RouteSearch, r: Robot, h: Seq<Cmd>) -> RouteSearch {
    let s1 = route_mark(st, Robot { direction: r.direction.spec_left(), ..r }, h.push(Cmd::TurnL), false);
    let s2 = route_mark(s1, Robot { direction: r.direction.spec_right(), ..r }, h.push(Cmd::TurnR), false);
    if r.spec_can_progress(input) {
        route_mark(s2, r.spec_forward(), forward_history(h), forward_goes_front(h))
    } else {
        s2
    }
}

/// At most `fuel` rounds of the search: the first robot taken off the queue
/// that stands on `goal`, with its route; `None` where the queue empties.
pub open spec fn route_rounds(input: &Input, goal: crate::geometry::Coord, st: RouteSearch, fuel: nat) -> Option<
    (Robot, Seq<Cmd>),
>
    decreases fuel,
{
    if fuel == 0 || st.queue.len() == 0 {
        None
    } else {
        let (r, h) = st.queue[0];
        if r.pos == goal {
            Some((r, h))
        } else {
            let rest = RouteSearch { marked: st.marked, queue: st.queue.subrange(1, st.queue.len() as int) };
            route_rounds(input, goal, route_expand(input, rest, r, h), (fuel - 1) as nat)
        }
    }
}

/// The route search from `start`: only `start` is marked and queued, with
/// the empty route.
pub open spec fn route_init(start: Robot) -> RouteSearch {
    RouteSearch { marked: |x: Robot| x == start, queue: seq![(start, Seq::<Cmd>::empty())] }
}

/// The robot on `goal` and the route that the search from `start` finds;
/// each robot enters the queue at most once, so `4 N N` rounds empty it.
pub open spec fn route_spec(input: &Input, start: Robot, goal: crate::geometry::Coord) -> Option<(Robot, Seq<Cmd>)> {
    route_rounds(input, goal, route_init(start), (4 * N * N) as nat)
}

/// The marks and queue of `find_route` are those of the search `gs`.
#[verifier::opaque]
pub open spec fn route_agrees(dp: Seq<Vec<Vec<bool>>>, dq: Seq<(Robot, Vec<Command>)>, gs: RouteSearch) -> bool {
    &&& forall|r: Robot| r.spec_in_field() ==> #[trigger] at3(dp, r) == (gs.marked)(r)
    &&& dq.len() == gs.queue.len()
    &&& forall|j: int| 0 <= j < dq.len() ==> (#[trigger] dq[j]).0 == gs.queue[j].0 && models(dq[j].1@) == gs.queue[j].1
}

/// Marking `r` and queueing it, or leaving it where it is marked, follows
/// the search.
proof fn lemma_route_mark_agrees(
    dp: Seq<Vec<Vec<bool>>>,
    dq: Seq<(Robot, Vec<Command>)>,
    gs: RouteSearch,
    dp2: Seq<Vec<Vec<bool>>>,
    dq2: Seq<(Robot, Vec<Command>)>,
    r: Robot,
    h: Seq<Cmd>,
    front: bool,
)
    requires
        route_agrees(dp, dq, gs),
        r.spec_in_field(),
        at3(dp, r) ==> dp2 == dp && dq2 == dq,
        !at3(dp, r) ==> {
            &&& forall|r2: Robot| r2.spec_in_field() ==> #[trigger] at3(dp2, r2) == (r2 == r || at3(dp, r2))
            &&& dq2.len() == dq.len() + 1
            &&& front ==> dq2.subrange(1, dq2.len() as int) == dq && dq2[0].0 == r && models(dq2[0].1@) == h
            &&& !front ==> dq2.subrange(0, dq.len() as int) == dq && dq2[dq.len() as int].0 == r && models(
                dq2[dq.len() as int].1@,
            ) == h
        },
    ensures
        route_agrees(dp2, dq2, route_mark(gs, r, h, front)),
{
    reveal(route_agrees);
    if !at3(dp, r) {
        let g2 = route_mark(gs, r, h, front);
        assert forall|j: int| 0 <= j < dq2.len() implies (#[trigger] dq2[j]).0 == g2.queue[j].0 && models(dq2[j].1@)
            == g2.queue[j].1 by {
            if front {
                if j > 0 {
                    assert(dq2[j] == dq2.subrange(1, dq2.len() as int)[j - 1]);
                }
            } else {
                if j < dq.len() {
                    assert(dq2[j] == dq2.subrange(0, dq.len() as int)[j]);
                }
            }
        }
    }
}

/// Taking the front entry off the queue follows the search.
proof fn lemma_route_pop_agrees(
    dp: Seq<Vec<Vec<bool>>>,
    dq: Seq<(Robot, Vec<Command>)>,
    gs: RouteSearch,
    dq2: Seq<(Robot, Vec<Command>)>,
)
    requires
        route_agrees(dp, dq, gs),
        dq.len() > 0,
        dq2 == dq.subrange(1, dq.len() as int),
    ensures
        route_agrees(dp, dq2, RouteSearch { marked: gs.marked, queue: gs.queue.subrange(1, gs.queue.len() as int) }),
        gs.queue[0] == (dq[0].0, models(dq[0].1@)),
        gs.queue.len() == dq.len(),
{
    reveal(route_agrees);
    assert(dq[0].0 == gs.queue[0].0);
}

/// A sound route stays sound under a larger bound.
proof fn lemma_entry_mono(input: &Input, base: Run, e: (Robot, Vec<Command>), b1: int, b2: int)
    requires
        route_entry_ok(input, base, e, b1),
        b1 <= b2,
    ensures
        route_entry_ok(input, base, e, b2),
{
}

/// A sound route extended by a turn is sound, with the bound one higher.
proof fn lemma_turn_entry(
    input: &Input,
    base: Run,
    e: (Robot, Vec<Command>),
    bound: int,
    turn: Cmd,
    e2: (Robot, Vec<Command>),
)
    requires
        route_entry_ok(input, base, e, bound),
        base.cnt + bound <= usize::MAX,
        turn is TurnL || turn is TurnR,
        e2.0 == e.0.spec_step(input, turn).unwrap(),
        models(e2.1@) == models(e.1@).push(turn),
    ensures
        route_entry_ok(input, base, e2, bound + 1),
{
    let hm = models(e.1@);
    lemma_run_seq_push(input, base, hm, turn);
    lemma_total_f_append(hm, seq![turn]);
    lemma_total_f_single(turn);
    assert(hm.push(turn) =~= hm + seq![turn]);
    lemma_seq_wf(hm);
    lemma_seq_wf(hm.push(turn));
    assert(cmd_wf(turn));
}

/// A sound route extended by a step forward is sound, with the bound one higher.
proof fn lemma_forward_entry(
    input: &Input,
    base: Run,
    e: (Robot, Vec<Command>),
    bound: int,
    e2: (Robot, Vec<Command>),
)
    requires
        route_entry_ok(input, base, e, bound),
        base.cnt + bound <= usize::MAX,
        e.0.spec_can_progress(input),
        e2.0 == e.0.spec_forward(),
        models(e2.1@) == forward_history(models(e.1@)),
    ensures
        route_entry_ok(input, base, e2, bound + 1),
{
    let hm = models(e.1@);
    let t = run_seq(input, base, hm).unwrap();
    lemma_forward_history(input, base, hm, t);
}

#[verifier::rlimit(60)]
/// Breadth-first search, over places and headings, for a command list that
/// brings the robot from `now_robot` onto `goal`: the first queued robot on
/// `goal`, as `route_spec` describes the search. Found routes are sound for
/// any starting state `base` of that robot; no route is found only where
/// `goal` cannot be reached at all.
pub fn find_route(input: &Input, now_robot: Robot, goal: crate::geometry::Coord, Ghost(base): Ghost<Run>) -> (res:
    Option<(Robot, Vec<Command>)>)
    requires
        input.wf(),
        now_robot.spec_in_field(),
        base.robot == now_robot,
        base.cnt + 4 * N * N <= usize::MAX,
    ensures
        res matches Some(e) ==> e.0.pos == goal && route_entry_ok(input, base, e, (4 * N * N) as int),
        match res {
            Some(e) => route_spec(input, now_robot, goal) == Some((e.0, models(e.1@))),
            None => route_spec(input, now_robot, goal) is None,
        },
        res is None ==> forall|d: Direction|
            !#[trigger] reachable(input, now_robot, Robot { pos: goal, direction: d }),
{
    let mut deque: VecDeque<(Robot, Vec<Command>)> = VecDeque::new();
    deque.push_front((now_robot, Vec::new()));
    let mut dp = new3(false);
    set3(&mut dp, &now_robot, true);
    let ghost mut seen: Set<int> = Set::empty().insert(robot_index(now_robot));
    let ghost mut gs = route_init(now_robot);
    let ghost mut fuel: nat = (4 * N * N) as nat;
    proof {
        reveal(route_agrees);
        assert(models(deque@[0].1@) =~= Seq::<Cmd>::empty());
        lemma_robot_index(now_robot, now_robot);
        assert forall|r: Robot| r.spec_in_field() implies (seen.contains(robot_index(r)) <==> #[trigger] at3(
            dp@,
            r,
        )) by {
            lemma_robot_index(now_robot, r);
        }
        assert(deque@[0].0 == now_robot);
        assert(models(deque@[0].1@) =~= Seq::<Cmd>::empty());
        assert(run_seq(input, base, Seq::<Cmd>::empty()) == Some(base));
        assert(total_f(Seq::<Cmd>::empty()) == 0);
        assert(route_queued(deque@, now_robot));
    }
    while deque.len() > 0
        invariant
            input.wf(),
            now_robot.spec_in_field(),
            base.robot == now_robot,
            base.cnt + 4 * N * N <= usize::MAX,
            at3(dp@, now_robot),
            route_inv(input, base, dp@, deque@, seen),
            route_closed(input, goal, dp@, deque@, None),
            route_agrees(dp@, deque@, gs),
            route_rounds(input, goal, gs, fuel) == route_spec(input, now_robot, goal),
            fuel + seen.len() >= deque@.len() + 4 * N * N,
        decreases 3 * (4 * N * N - seen.len()) + deque@.len(),
    {
        let ghost gs_start = gs;
        proof {
            lemma_index_set_bound(seen);
        }
        let ghost prev = deque@;
        let (robot, history) = match deque.pop_front() {
            Some(e) => e,
            None => {
                return None;
            },
        };
        let ghost e0 = (robot, history);
        proof {
            assert(prev[0] == e0);
            assert(deque@ =~= prev.subrange(1, prev.len() as int));
            lemma_route_pop_agrees(dp@, prev, gs, deque@);
            gs = RouteSearch { marked: gs.marked, queue: gs.queue.subrange(1, gs.queue.len() as int) };
            assert forall|j: int| 0 <= j < deque@.len() implies #[trigger] deque@[j] == prev[j + 1] by {}
            assert(route_inv(input, base, dp@, deque@, seen));
            assert forall|r: Robot| r.spec_in_field() && #[trigger] at3(dp@, r) implies Some(robot) == Some(r)
                || route_queued(deque@, r) || (closed_under(input, visited(dp@), r) && r.pos != goal) by {
                if route_queued(prev, r) {
                    let j = choose|j: int| 0 <= j < prev.len() && (#[trigger] prev[j]).0 == r;
                    if j > 0 {
                        assert(deque@[j - 1] == prev[j]);
                    }
                }
            }
            assert(route_entry_ok(input, base, e0, seen.len() as int));
        }
        let ghost s0 = seen.len() as int;
        if robot.pos == goal {
            proof {
                lemma_index_set_bound(seen);
            }
            return Some((robot, history));
        }
        // A quarter turn to the left.
        let ghost dp0 = dp@;
        let ghost dq0 = deque@;
        rotate_transit(&robot, Command::TurnL, &mut dp, &mut deque, &history, input);
        proof {
            lemma_route_mark_agrees(dp0, dq0, gs, dp@, deque@, robot.spec_step(input, Cmd::TurnL).unwrap(), models(history@).push(Cmd::TurnL), false);
            gs = route_mark(gs, robot.spec_step(input, Cmd::TurnL).unwrap(), models(history@).push(Cmd::TurnL), false);
            let r2 = robot.spec_step(input, Cmd::TurnL).unwrap();
            if !at3(dp0, r2) {
                let e2 = deque@[dq0.len() as int];
                assert(deque@ =~= dq0.push(e2));
                lemma_entry_mono(input, base, e0, s0, seen.len() as int);
                lemma_turn_entry(input, base, e0, seen.len() as int, Cmd::TurnL, e2);
                lemma_route_mark(input, base, goal, dp0, dq0, seen, Some(robot), dp@, deque@, e2, false);
                seen = seen.insert(robot_index(r2));
                lemma_index_set_bound(seen);
            }
        }
        // A quarter turn to the right.
        let ghost dp1 = dp@;
        let ghost dq1 = deque@;
        rotate_transit(&robot, Command::TurnR, &mut dp, &mut deque, &history, input);
        proof {
            lemma_route_mark_agrees(dp1, dq1, gs, dp@, deque@, robot.spec_step(input, Cmd::TurnR).unwrap(), models(history@).push(Cmd::TurnR), false);
            gs = route_mark(gs, robot.spec_step(input, Cmd::TurnR).unwrap(), models(history@).push(Cmd::TurnR), false);
            let r2 = robot.spec_step(input, Cmd::TurnR).unwrap();
            if !at3(dp1, r2) {
                let e2 = deque@[dq1.len() as int];
                assert(deque@ =~= dq1.push(e2));
                lemma_entry_mono(input, base, e0, s0, seen.len() as int);
                lemma_turn_entry(input, base, e0, seen.len() as int, Cmd::TurnR, e2);
                lemma_route_mark(input, base, goal, dp1, dq1, seen, Some(robot), dp@, deque@, e2, false);
                seen = seen.insert(robot_index(r2));
                lemma_index_set_bound(seen);
            }
        }
        // A step forward.
        let ghost dp2 = dp@;
        let ghost dq2 = deque@;
        proof {
            let hm = models(history@);
            assert(total_f(hm) < 4 * N * N);
            if forward_goes_front(hm) {
                let front = hm.subrange(0, hm.len() - 1);
                assert(hm =~= front + seq![hm.last()]);
                lemma_total_f_append(front, seq![hm.last()]);
                lemma_total_f_single(hm.last());
            }
        }
        progress_transit(&robot, &mut dp, &mut deque, &history, input);
        proof {
            if robot.spec_can_progress(input) {
                let hm = models(history@);
                lemma_route_mark_agrees(dp2, dq2, gs, dp@, deque@, robot.spec_forward(), forward_history(hm), forward_goes_front(hm));
                gs = route_mark(gs, robot.spec_forward(), forward_history(hm), forward_goes_front(hm));
            }
            assert(gs == route_expand(input, RouteSearch { marked: gs_start.marked, queue: gs_start.queue.subrange(1, gs_start.queue.len() as int) }, robot, models(history@)));
            assert(route_rounds(input, goal, gs_start, fuel) == route_rounds(input, goal, gs, (fuel - 1) as nat));
            fuel = (fuel - 1) as nat;
            let r2 = robot.spec_forward();
            if robot.spec_can_progress(input) && !at3(dp2, r2) {
                let hm = models(history@);
                if forward_goes_front(hm) {
                    let e2 = deque@[0];
                    assert(deque@ =~= seq![e2] + dq2);
                    lemma_entry_mono(input, base, e0, s0, seen.len() as int);
                    lemma_forward_entry(input, base, e0, seen.len() as int, e2);
                    lemma_route_mark(input, base, goal, dp2, dq2, seen, Some(robot), dp@, deque@, e2, true);
                } else {
                    let e2 = deque@[dq2.len() as int];
                    assert(deque@ =~= dq2.push(e2));
                    lemma_entry_mono(input, base, e0, s0, seen.len() as int);
                    lemma_forward_entry(input, base, e0, seen.len() as int, e2);
                    lemma_route_mark(input, base, goal, dp2, dq2, seen, Some(robot), dp@, deque@, e2, false);
                }
                seen = seen.insert(robot_index(r2));
                lemma_index_set_bound(seen);
            }
            let rr = Robot { direction: robot.direction.spec_right(), ..robot };
            let rl = Robot { direction: robot.direction.spec_left(), ..robot };
            assert(at3(dp@, rr));
            assert(at3(dp@, rl));
            assert(closed_under(input, visited(dp@), robot));
        }
    }
    proof {
        reveal(route_agrees);
        assert(route_rounds(input, goal, gs, fuel) is None);
        assert forall|r: Robot| r.spec_in_field() && #[trigger] at3(dp@, r) implies closed_under(
            input,
            visited(dp@),
            r,
        ) && r.pos != goal by {
            if route_queued(deque@, r) {
                let j = choose|j: int| 0 <= j < deque@.len() && (#[trigger] deque@[j]).0 == r;
            }
        }
        assert forall|d: Direction| !#[trigger] reachable(input, now_robot, Robot { pos: goal, direction: d }) by {
            let g = Robot { pos: goal, direction: d };
            if reachable(input, now_robot, g) {
                lemma_reachable_marked(input, visited(dp@), now_robot, g);
                let cs = choose|cs: Seq<Cmd>|
                    (forall|i: int| 0 <= i < cs.len() ==> #[trigger] is_move(cs[i])) && #[trigger] walk(
                        input,
                        now_robot,
                        cs,
                    ) == Some(g);
                lemma_closed_reach(input, visited(dp@), now_robot, cs);
            }
        }
    }
    None
}

} // verus!

verus! {

/// A state of the robot alone: nothing stood on, the counter at zero.
pub open spec fn bare_run(r: Robot) -> Run {
    Run { robot: r, gone: Seq::empty(), rest: 0, cnt: 0 }
}

/// The route search of `find_route` from `now_robot` to `goal`, with the
/// route's soundness stated from the robot's bare state.
pub fn route_to(input: &Input, now_robot: Robot, goal: crate::geometry::Coord) -> (res: Option<
    (Robot, Vec<Command>),
>)
    requires
        input.wf(),
        now_robot.spec_in_field(),
    ensures
        res matches Some(e) ==> e.0.pos == goal && route_entry_ok(input, bare_run(now_robot), e, (4 * N * N) as int),
        res is None ==> forall|d: Direction|
            !#[trigger] reachable(input, now_robot, Robot { pos: goal, direction: d }),
        match res {
            Some(e) => route_spec(input, now_robot, goal) == Some((e.0, models(e.1@))),
            None => route_spec(input, now_robot, goal) is None,
        },
{
    find_route(input, now_robot, goal, Ghost(bare_run(now_robot)))
}

} // verus!
