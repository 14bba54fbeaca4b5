use vstd::prelude::*;

use crate::command::{f_block, models, Cmd, Command};
use crate::field::Input;
use crate::state::{run_cmd, run_iter, run_seq, Run};

verus! {

/// A single forward move, or a repetition of a single forward move.
pub open spec fn is_f_run(c: Cmd) -> bool {
    c is F || (c matches Cmd::Iter(_, b) && b == seq![Cmd::F])
}

/// How many forward moves a run of forward moves stands for.
pub open spec fn f_count(c: Cmd) -> nat {
    match c {
        Cmd::Iter(n, _) => n,
        _ => 1,
    }
}

/// The forward moves that the runs of forward moves in `s` stand for, in all.
pub open spec fn total_f(s: Seq<Cmd>) -> nat
    decreases s.len(),
{
    if s.len() == 0 {
        0
    } else {
        (if is_f_run(s[0]) { f_count(s[0]) } else { 0 }) + total_f(s.subrange(1, s.len() as int))
    }
}

/// A left-to-right pass that merges each two neighbouring runs of forward
/// moves into one repetition of a forward move, until no two neighbours are
/// both runs of forward moves.
pub open spec fn compress_spec(s: Seq<Cmd>) -> Seq<Cmd>
    decreases s.len(),
{
    if s.len() < 2 {
        s
    } else if is_f_run(s[0]) && is_f_run(s[1]) {
        compress_spec(
            seq![Cmd::Iter(f_count(s[0]) + f_count(s[1]), seq![Cmd::F])] + s.subrange(2, s.len() as int),
        )
    } else {
        seq![s[0]] + compress_spec(s.subrange(1, s.len() as int))
    }
}

/// Every merge that `compress_spec` makes adds two counts whose sum fits in
/// `usize`: the forward moves of each stretch of neighbouring runs of forward
/// moves fit in `usize`.
pub open spec fn runs_fit(s: Seq<Cmd>) -> bool
    decreases s.len(),
{
    if s.len() < 2 {
        true
    } else if is_f_run(s[0]) && is_f_run(s[1]) {
        f_count(s[0]) + f_count(s[1]) <= usize::MAX && runs_fit(
            seq![Cmd::Iter(f_count(s[0]) + f_count(s[1]), seq![Cmd::F])] + s.subrange(2, s.len() as int),
        )
    } else {
        runs_fit(s.subrange(1, s.len() as int))
    }
}

/// `Some(count)` for a run of forward moves, else `None`.
fn f_run_count(c: &Command) -> (r: Option<usize>)
    ensures
        r is Some <==> is_f_run(c.model()),
        r matches Some(k) ==> k == f_count(c.model()),
{
    match c {
        Command::F => Some(1),
        Command::Iter(n, v) => {
            if v.len() == 1 && matches!(v[0], Command::F) {
                proof {
                    assert(c.model()->Iter_1 =~= seq![Cmd::F]);
                }
                Some(*n)
            } else {
                proof {
                    if c.model()->Iter_1 == seq![Cmd::F] {
                        assert(c.model()->Iter_1.len() == v@.len());
                        assert(c.model()->Iter_1[0] == v@[0].model());
                        assert(v@[0].model() == Cmd::F);
                        assert(v@[0] is F);
                    }
                }
                None
            }
        },
        _ => None,
    }
}

proof fn lemma_total_f_split(s: Seq<Cmd>, i: int)
    requires
        0 <= i < s.len(),
    ensures
        total_f(s.subrange(i, s.len() as int)) == (if is_f_run(s[i]) { f_count(s[i]) } else { 0 })
            + total_f(s.subrange(i + 1, s.len() as int)),
{
    assert(s.subrange(i, s.len() as int).subrange(1, s.len() - i) =~= s.subrange(i + 1, s.len() as int));
}

/// Merges neighbouring runs of forward moves; the list is not empty, and the
/// count of each merged run fits in `usize`.
pub fn compress(commands: &mut Vec<Command>)
    requires
        old(commands)@.len() >= 1,
        runs_fit(models(old(commands)@)),
    ensures
        models(final(commands)@) == compress_spec(models(old(commands)@)),
{
    let ghost target = compress_spec(models(commands@));
    let mut i: usize = 0;
    proof {
        assert(models(commands@).subrange(0, commands@.len() as int) =~= models(commands@));
        assert(models(commands@).subrange(0, 0) =~= Seq::<Cmd>::empty());
    }
    while i < commands.len() - 1
        invariant
            commands@.len() >= 1,
            0 <= i < commands@.len(),
            target == models(commands@).subrange(0, i as int) + compress_spec(
                models(commands@).subrange(i as int, commands@.len() as int),
            ),
            runs_fit(models(commands@).subrange(i as int, commands@.len() as int)),
        decreases commands@.len() - i,
    {
        let ghost m = models(commands@);
        let ghost len = commands@.len() as int;
        let ghost suffix = m.subrange(i as int, len);
        let a = f_run_count(&commands[i]);
        let b = f_run_count(&commands[i + 1]);
        proof {
            assert(suffix[0] == m[i as int]);
            assert(suffix[1] == m[i + 1]);
        }
        match (a, b) {
            (Some(x), Some(y)) => {
                let c = f_block(x + y);
                commands.set(i, c);
                commands.remove(i + 1);
                proof {
                    let m2 = models(commands@);
                    let merged = seq![Cmd::Iter(f_count(suffix[0]) + f_count(suffix[1]), seq![Cmd::F])]
                        + suffix.subrange(2, suffix.len() as int);
                    assert(m2.subrange(i as int, m2.len() as int) =~= merged);
                    assert(m2.subrange(0, i as int) =~= m.subrange(0, i as int));
                }
            },
            _ => {
                proof {
                    assert(compress_spec(suffix) == seq![suffix[0]] + compress_spec(
                        suffix.subrange(1, suffix.len() as int),
                    ));
                    assert(suffix.subrange(1, suffix.len() as int) =~= m.subrange(i + 1, len));
                    assert(m.subrange(0, i + 1) =~= m.subrange(0, i as int) + seq![suffix[0]]);
                }
                i += 1;
            },
        }
    }
    proof {
        let m = models(commands@);
        assert(m.subrange(i as int, m.len() as int).len() < 2);
        assert(m.subrange(0, i as int) + m.subrange(i as int, m.len() as int) =~= m);
    }
}

} // verus!

verus! {

/// Running `a + b` is running `a`, then `b`.
pub proof fn lemma_run_seq_append(input: &Input, s: Run, a: Seq<Cmd>, b: Seq<Cmd>)
    ensures
        run_seq(input, s, a + b) == match run_seq(input, s, a) {
            Some(t) => run_seq(input, t, b),
            None => None,
        },
    decreases b.len(),
{
    if b.len() == 0 {
        assert(a + b =~= a);
    } else {
        let b0 = b.subrange(0, b.len() - 1);
        lemma_run_seq_append(input, s, a, b0);
        assert((a + b).subrange(0, (a + b).len() - 1) =~= a + b0);
    }
}

/// `a + b` forward moves are `a` forward moves, then `b`.
pub proof fn lemma_iter_f_add(input: &Input, s: Run, a: nat, b: nat)
    ensures
        run_iter(input, s, a + b, seq![Cmd::F]) == match run_iter(input, s, a, seq![Cmd::F]) {
            Some(t) => run_iter(input, t, b, seq![Cmd::F]),
            None => None,
        },
    decreases b,
{
    if b > 0 {
        lemma_iter_f_add(input, s, a, (b - 1) as nat);
    }
}

/// Running a one-command list is running the command.
pub proof fn lemma_run_single(input: &Input, s: Run, c: Cmd)
    ensures
        run_seq(input, s, seq![c]) == run_cmd(input, s, c),
{
    let f = seq![c];
    assert(f.subrange(0, 0) =~= Seq::<Cmd>::empty());
    assert(run_seq(input, s, f.subrange(0, 0)) == Some(s));
}

/// A run of forward moves behaves as its count of forward moves.
proof fn lemma_f_run(input: &Input, s: Run, c: Cmd)
    requires
        is_f_run(c),
    ensures
        run_cmd(input, s, c) == run_iter(input, s, f_count(c), seq![Cmd::F]),
{
    if c is F {
        let f = seq![Cmd::F];
        assert(run_iter(input, s, 0, f) == Some(s));
        lemma_run_single(input, s, Cmd::F);
    }
}

/// Running one command, then a list, is running the list with that command in front.
proof fn lemma_run_cons(input: &Input, s: Run, c: Cmd, rest: Seq<Cmd>)
    ensures
        run_seq(input, s, seq![c] + rest) == match run_cmd(input, s, c) {
            Some(t) => run_seq(input, t, rest),
            None => None,
        },
{
    lemma_run_seq_append(input, s, seq![c], rest);
    lemma_run_single(input, s, c);
}

/// Merging runs of forward moves does not change what a list of commands
/// does: from any state, the merged list ends in the same state, or fails
/// exactly where the list fails.
pub proof fn lemma_compress_preserves_run(input: &Input, s: Run, cs: Seq<Cmd>)
    ensures
        run_seq(input, s, compress_spec(cs)) == run_seq(input, s, cs),
    decreases cs.len(),
{
    if cs.len() < 2 {
    } else if is_f_run(cs[0]) && is_f_run(cs[1]) {
        let rest = cs.subrange(2, cs.len() as int);
        let blk = Cmd::Iter(f_count(cs[0]) + f_count(cs[1]), seq![Cmd::F]);
        let merged = seq![blk] + rest;
        lemma_compress_preserves_run(input, s, merged);
        lemma_run_cons(input, s, blk, rest);
        lemma_iter_f_add(input, s, f_count(cs[0]), f_count(cs[1]));
        lemma_f_run(input, s, cs[0]);
        assert(cs =~= seq![cs[0]] + (seq![cs[1]] + rest));
        lemma_run_cons(input, s, cs[0], seq![cs[1]] + rest);
        match run_cmd(input, s, cs[0]) {
            Some(t) => {
                lemma_f_run(input, t, cs[1]);
                lemma_run_cons(input, t, cs[1], rest);
            },
            None => {},
        }
    } else {
        let rest = cs.subrange(1, cs.len() as int);
        assert(cs =~= seq![cs[0]] + rest);
        lemma_run_cons(input, s, cs[0], rest);
        lemma_run_cons(input, s, cs[0], compress_spec(rest));
        match run_cmd(input, s, cs[0]) {
            Some(t) => {
                lemma_compress_preserves_run(input, t, rest);
            },
            None => {},
        }
    }
}

/// The first command of the merged list is a run of forward moves exactly
/// when the first command of the list is one.
proof fn lemma_compress_head(cs: Seq<Cmd>)
    requires
        cs.len() >= 1,
    ensures
        compress_spec(cs).len() >= 1,
        is_f_run(compress_spec(cs)[0]) == is_f_run(cs[0]),
        !is_f_run(cs[0]) ==> compress_spec(cs)[0] == cs[0],
    decreases cs.len(),
{
    if cs.len() < 2 {
    } else if is_f_run(cs[0]) && is_f_run(cs[1]) {
        let merged = seq![Cmd::Iter(f_count(cs[0]) + f_count(cs[1]), seq![Cmd::F])] + cs.subrange(
            2,
            cs.len() as int,
        );
        lemma_compress_head(merged);
    } else {
    }
}

/// After merging, no two neighbouring commands are both runs of forward moves.
pub proof fn lemma_compress_maximal(cs: Seq<Cmd>)
    ensures
        forall|i: int|
            0 <= i < compress_spec(cs).len() - 1 ==> !(#[trigger] is_f_run(compress_spec(cs)[i])
                && is_f_run(compress_spec(cs)[i + 1])),
    decreases cs.len(),
{
    if cs.len() < 2 {
    } else if is_f_run(cs[0]) && is_f_run(cs[1]) {
        let merged = seq![Cmd::Iter(f_count(cs[0]) + f_count(cs[1]), seq![Cmd::F])] + cs.subrange(
            2,
            cs.len() as int,
        );
        lemma_compress_maximal(merged);
        assert(compress_spec(cs) == compress_spec(merged));
    } else {
        let rest = cs.subrange(1, cs.len() as int);
        lemma_compress_maximal(rest);
        lemma_compress_head(rest);
        let r = compress_spec(cs);
        assert forall|i: int| 0 <= i < r.len() - 1 implies !(#[trigger] is_f_run(r[i]) && is_f_run(
            r[i + 1],
        )) by {
            if i > 0 {
                assert(r[i] == compress_spec(rest)[i - 1]);
                assert(r[i + 1] == compress_spec(rest)[i]);
            } else {
                assert(rest[0] == cs[1]);
            }
        }
    }
}

} // verus!

verus! {

/// Merging keeps every command well formed.
pub proof fn lemma_compress_wf(cs: Seq<Cmd>)
    requires
        forall|i: int| 0 <= i < cs.len() ==> #[trigger] crate::command::cmd_wf(cs[i]),
    ensures
        forall|i: int|
            0 <= i < compress_spec(cs).len() ==> #[trigger] crate::command::cmd_wf(compress_spec(cs)[i]),
    decreases cs.len(),
{
    if cs.len() < 2 {
    } else if is_f_run(cs[0]) && is_f_run(cs[1]) {
        let blk = Cmd::Iter(f_count(cs[0]) + f_count(cs[1]), seq![Cmd::F]);
        let rest = cs.subrange(2, cs.len() as int);
        let merged = seq![blk] + rest;
        assert(crate::command::cmd_wf(cs[0]));
        assert(crate::command::cmd_wf(cs[1]));
        crate::command::lemma_seq_wf(seq![Cmd::F]);
        assert(crate::command::cmd_wf(blk));
        assert forall|i: int| 0 <= i < merged.len() implies #[trigger] crate::command::cmd_wf(merged[i]) by {
            if i > 0 {
                assert(merged[i] == cs[i + 1]);
            }
        }
        lemma_compress_wf(merged);
        assert(compress_spec(cs) == compress_spec(merged));
    } else {
        let rest = cs.subrange(1, cs.len() as int);
        assert forall|i: int| 0 <= i < rest.len() implies #[trigger] crate::command::cmd_wf(rest[i]) by {
            assert(rest[i] == cs[i + 1]);
        }
        lemma_compress_wf(rest);
        let r = compress_spec(cs);
        assert forall|i: int| 0 <= i < r.len() implies #[trigger] crate::command::cmd_wf(r[i]) by {
            if i > 0 {
                assert(r[i] == compress_spec(rest)[i - 1]);
            } else {
                assert(crate::command::cmd_wf(cs[0]));
            }
        }
    }
}

} // verus!

verus! {

/// The forward moves of a joined list are those of its parts.
pub proof fn lemma_total_f_append(a: Seq<Cmd>, b: Seq<Cmd>)
    ensures
        total_f(a + b) == total_f(a) + total_f(b),
    decreases a.len(),
{
    if a.len() > 0 {
        lemma_total_f_append(a.subrange(1, a.len() as int), b);
        assert((a + b).subrange(1, (a + b).len() as int) =~= a.subrange(1, a.len() as int) + b);
    } else {
        assert(a + b =~= b);
    }
}

/// Where the forward moves of a list in all fit in `usize`, so does the count
/// of each merged run.
pub proof fn lemma_runs_fit_total(s: Seq<Cmd>)
    requires
        total_f(s) <= usize::MAX,
    ensures
        runs_fit(s),
    decreases s.len(),
{
    if s.len() >= 2 {
        lemma_total_f_split(s, 0);
        lemma_total_f_split(s, 1);
        assert(s.subrange(0, s.len() as int) =~= s);
        if is_f_run(s[0]) && is_f_run(s[1]) {
            let blk = Cmd::Iter(f_count(s[0]) + f_count(s[1]), seq![Cmd::F]);
            let rest = s.subrange(2, s.len() as int);
            lemma_total_f_append(seq![blk], rest);
            lemma_total_f_single(blk);
            lemma_runs_fit_total(seq![blk] + rest);
        } else {
            lemma_runs_fit_total(s.subrange(1, s.len() as int));
        }
    }
}

/// A list with no two neighbouring runs of forward moves is left as it is by
/// merging, and its merges all fit.
pub proof fn lemma_compress_unmerged(s: Seq<Cmd>)
    requires
        forall|i: int| 0 <= i < s.len() - 1 ==> !(#[trigger] is_f_run(s[i]) && is_f_run(s[i + 1])),
    ensures
        compress_spec(s) == s,
        runs_fit(s),
    decreases s.len(),
{
    if s.len() >= 2 {
        let rest = s.subrange(1, s.len() as int);
        assert(!(is_f_run(s[0]) && is_f_run(s[1])));
        assert forall|i: int| 0 <= i < rest.len() - 1 implies !(#[trigger] is_f_run(rest[i]) && is_f_run(
            rest[i + 1],
        )) by {
            assert(rest[i] == s[i + 1]);
            assert(rest[i + 1] == s[i + 2]);
        }
        lemma_compress_unmerged(rest);
        assert(seq![s[0]] + rest =~= s);
    }
}

/// Merging a merged list changes nothing, and the second merge never
/// overflows.
pub proof fn lemma_compress_idempotent(s: Seq<Cmd>)
    ensures
        compress_spec(compress_spec(s)) == compress_spec(s),
        runs_fit(compress_spec(s)),
        s.len() >= 1 ==> compress_spec(s).len() >= 1,
{
    lemma_compress_maximal(s);
    lemma_compress_unmerged(compress_spec(s));
    if s.len() >= 1 {
        lemma_compress_head(s);
    }
}

/// The forward moves of a one-command list.
pub proof fn lemma_total_f_single(c: Cmd)
    ensures
        total_f(seq![c]) == if is_f_run(c) {
            f_count(c)
        } else {
            0
        },
{
    assert(seq![c].subrange(1, 1) =~= Seq::<Cmd>::empty());
    assert(total_f(seq![c].subrange(1, 1)) == 0);
}

} // verus!

verus! {

/// `10` to the power `k`.
pub open spec fn pow10(k: nat) -> nat
    decreases k,
{
    if k == 0 {
        1
    } else {
        10 * pow10((k - 1) as nat)
    }
}

proof fn lemma_pow10_mono(j: nat, k: nat)
    requires
        j <= k,
    ensures
        1 <= pow10(j) <= pow10(k),
    decreases k,
{
    if j < k {
        lemma_pow10_mono(j, (k - 1) as nat);
    } else if k > 0 {
        lemma_pow10_mono((k - 1) as nat, (k - 1) as nat);
    }
}

/// A number below `10^k` has at most `k` digits, and every number is below
/// `10` to the power of its digit count.
proof fn lemma_decimal_len(n: nat, k: nat)
    ensures
        crate::command::decimal(n).len() >= 1,
        n < pow10(crate::command::decimal(n).len()),
        k >= 1 && n < pow10(k) ==> crate::command::decimal(n).len() <= k,
    decreases n,
{
    if n >= 10 {
        lemma_decimal_len(n / 10, (k - 1) as nat);
        if k >= 1 && n < pow10(k) {
            if k == 1 {
                assert(pow10(1) == 10) by {
                    assert(pow10(0) == 1);
                }
            }
            assert(n / 10 < pow10((k - 1) as nat));
        }
    } else {
        if k >= 1 {
            lemma_pow10_mono(1, k);
        }
        assert(pow10(1) == 10) by {
            assert(pow10(0) == 1);
        }
    }
}

/// The digit count of a sum exceeds the larger digit count by at most one.
proof fn lemma_decimal_len_sum(a: nat, b: nat)
    ensures
        crate::command::decimal(a + b).len() <= (if crate::command::decimal(a).len() >= crate::command::decimal(
            b,
        ).len() {
            crate::command::decimal(a).len()
        } else {
            crate::command::decimal(b).len()
        }) + 1,
{
    let da = crate::command::decimal(a).len();
    let db = crate::command::decimal(b).len();
    let m = if da >= db { da } else { db };
    lemma_decimal_len(a, 0);
    lemma_decimal_len(b, 0);
    lemma_pow10_mono(da, m);
    lemma_pow10_mono(db, m);
    assert(pow10(m + 1) == 10 * pow10(m));
    lemma_decimal_len(a + b, m + 1);
}

/// The text of a list joined from two is their texts joined.
pub proof fn lemma_seq_repr_append(a: Seq<Cmd>, b: Seq<Cmd>)
    ensures
        crate::command::seq_repr(a + b) == crate::command::seq_repr(a) + crate::command::seq_repr(b),
    decreases b.len(),
{
    if b.len() == 0 {
        assert(a + b =~= a);
        assert(crate::command::seq_repr(a) + crate::command::seq_repr(b) =~= crate::command::seq_repr(a));
    } else {
        let b0 = b.subrange(0, b.len() - 1);
        lemma_seq_repr_append(a, b0);
        assert((a + b).subrange(0, (a + b).len() - 1) =~= a + b0);
    }
}

/// The length of the text of a run of `c` forward moves.
spec fn f_text_len(c: nat) -> nat {
    if c == 1 {
        1
    } else {
        crate::command::decimal(c).len() + 1
    }
}

proof fn lemma_f_run_text(c: Cmd)
    requires
        is_f_run(c),
    ensures
        crate::command::cmd_repr(c).len() == f_text_len(f_count(c)),
{
    if c is Iter {
        let one = seq![Cmd::F];
        assert(one.subrange(0, 0) =~= Seq::<Cmd>::empty());
        assert(crate::command::seq_repr(one) == crate::command::seq_repr(one.subrange(0, 0)) + crate::command::cmd_repr(
            Cmd::F,
        ));
    }
}

proof fn lemma_repr_cons(c: Cmd, rest: Seq<Cmd>)
    ensures
        crate::command::seq_repr(seq![c] + rest).len() == crate::command::cmd_repr(c).len()
            + crate::command::seq_repr(rest).len(),
{
    lemma_seq_repr_append(seq![c], rest);
    let one = seq![c];
    assert(one.subrange(0, 0) =~= Seq::<Cmd>::empty());
    assert(crate::command::seq_repr(one) == crate::command::seq_repr(one.subrange(0, 0)) + crate::command::cmd_repr(c));
}

/// Merging runs of forward moves never makes the text of well-formed commands longer.
pub proof fn lemma_compress_no_longer(cs: Seq<Cmd>)
    requires
        forall|i: int| 0 <= i < cs.len() ==> #[trigger] crate::command::cmd_wf(cs[i]),
    ensures
        crate::command::seq_repr(compress_spec(cs)).len() <= crate::command::seq_repr(cs).len(),
    decreases cs.len(),
{
    if cs.len() < 2 {
    } else if is_f_run(cs[0]) && is_f_run(cs[1]) {
        let a = f_count(cs[0]);
        let b = f_count(cs[1]);
        let blk = Cmd::Iter(a + b, seq![Cmd::F]);
        let rest = cs.subrange(2, cs.len() as int);
        let merged = seq![blk] + rest;
        assert(crate::command::cmd_wf(cs[0]));
        assert(crate::command::cmd_wf(cs[1]));
        assert(a >= 1 && b >= 1);
        crate::command::lemma_seq_wf(seq![Cmd::F]);
        assert forall|i: int| 0 <= i < merged.len() implies #[trigger] crate::command::cmd_wf(merged[i]) by {
            if i > 0 {
                assert(merged[i] == cs[i + 1]);
            }
        }
        lemma_compress_no_longer(merged);
        assert(compress_spec(cs) == compress_spec(merged));
        lemma_repr_cons(blk, rest);
        assert(cs =~= seq![cs[0]] + (seq![cs[1]] + rest));
        lemma_repr_cons(cs[0], seq![cs[1]] + rest);
        lemma_repr_cons(cs[1], rest);
        lemma_f_run_text(cs[0]);
        lemma_f_run_text(cs[1]);
        lemma_f_run_text(blk);
        lemma_decimal_len_sum(a, b);
        lemma_decimal_len(a, 0);
        lemma_decimal_len(b, 0);
        if a == 1 {
            lemma_decimal_len(1, 1);
            assert(pow10(1) == 10) by {
                assert(pow10(0) == 1);
            }
        }
        if b == 1 {
            lemma_decimal_len(1, 1);
            assert(pow10(1) == 10) by {
                assert(pow10(0) == 1);
            }
        }
    } else {
        let rest = cs.subrange(1, cs.len() as int);
        assert forall|i: int| 0 <= i < rest.len() implies #[trigger] crate::command::cmd_wf(rest[i]) by {
            assert(rest[i] == cs[i + 1]);
        }
        lemma_compress_no_longer(rest);
        assert(cs =~= seq![cs[0]] + rest);
        lemma_repr_cons(cs[0], rest);
        lemma_repr_cons(cs[0], compress_spec(rest));
    }
}

} // verus!
