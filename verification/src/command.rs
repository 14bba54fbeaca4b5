use vstd::prelude::*;

verus! {

/// One instruction for the robot; `Iter(n, body)` repeats `body` `n` times.
#[derive(Debug, PartialEq, Eq)]
pub enum Command {
    TurnR,
    TurnL,
    Turnr,
    Turnl,
    F,
    Iter(usize, Vec<Command>),
}

/// The mathematical value of a `Command`.
pub enum Cmd {
    TurnR,
    TurnL,
    Turnr,
    Turnl,
    F,
    Iter(nat, Seq<Cmd>),
}

impl Command {
    /// The value of the command, its body taken command by command.
    pub open spec fn model(&self) -> Cmd
        decreases self,
    {
        match self {
            Command::TurnR => Cmd::TurnR,
            Command::TurnL => Cmd::TurnL,
            Command::Turnr => Cmd::Turnr,
            Command::Turnl => Cmd::Turnl,
            Command::F => Cmd::F,
            Command::Iter(n, v) => Cmd::Iter(
                *n as nat,
                Seq::new(v@.len(), |i: int| if 0 <= i < v@.len() { v@[i].model() } else { Cmd::F }),
            ),
        }
    }
}

/// The models of a list of commands.
pub open spec fn models(v: Seq<Command>) -> Seq<Cmd> {
    v.map_values(|c: Command| c.model())
}

/// A repetition has a positive count and a non-empty body, all the way down.
pub open spec fn cmd_wf(c: Cmd) -> bool
    decreases c, 0nat,
{
    match c {
        Cmd::Iter(n, body) => n > 0 && body.len() > 0 && seq_wf(body),
        _ => true,
    }
}

/// Every command of `cs` is well formed.
pub open spec fn seq_wf(cs: Seq<Cmd>) -> bool
    decreases cs, 1nat,
{
    if cs.len() == 0 {
        true
    } else {
        seq_wf(cs.subrange(0, cs.len() - 1)) && cmd_wf(cs[cs.len() - 1])
    }
}

/// `seq_wf` holds exactly when each command is well formed.
pub proof fn lemma_seq_wf(cs: Seq<Cmd>)
    ensures
        seq_wf(cs) <==> forall|i: int| 0 <= i < cs.len() ==> #[trigger] cmd_wf(cs[i]),
    decreases cs.len(),
{
    if cs.len() > 0 {
        let p = cs.subrange(0, cs.len() - 1);
        lemma_seq_wf(p);
        if seq_wf(cs) {
            assert forall|i: int| 0 <= i < cs.len() implies #[trigger] cmd_wf(cs[i]) by {
                if i < cs.len() - 1 {
                    assert(cmd_wf(p[i]));
                }
            }
        }
        if forall|i: int| 0 <= i < cs.len() ==> #[trigger] cmd_wf(cs[i]) {
            assert forall|i: int| 0 <= i < p.len() implies #[trigger] cmd_wf(p[i]) by {
                assert(cmd_wf(cs[i]));
            }
            assert(cmd_wf(cs[cs.len() - 1]));
        }
    }
}

/// The decimal digit `d`, for `0 <= d < 10`.
pub open spec fn digit_char(d: int) -> char {
    if d == 0 {
        '0'
    } else if d == 1 {
        '1'
    } else if d == 2 {
        '2'
    } else if d == 3 {
        '3'
    } else if d == 4 {
        '4'
    } else if d == 5 {
        '5'
    } else if d == 6 {
        '6'
    } else if d == 7 {
        '7'
    } else if d == 8 {
        '8'
    } else {
        '9'
    }
}

/// The decimal numeral of `n`, without leading zeros.
pub open spec fn decimal(n: nat) -> Seq<char>
    decreases n,
{
    if n < 10 {
        seq![digit_char(n as int)]
    } else {
        decimal(n / 10).push(digit_char((n % 10) as int))
    }
}

/// The text of a command: one letter for a plain command; for a repetition
/// the body alone when the count is 1, the count and the single command when
/// the body has one command, else the count and the body in parentheses.
pub open spec fn cmd_repr(c: Cmd) -> Seq<char>
    decreases c, 0nat,
{
    match c {
        Cmd::TurnR => seq!['R'],
        Cmd::TurnL => seq!['L'],
        Cmd::Turnr => seq!['r'],
        Cmd::Turnl => seq!['l'],
        Cmd::F => seq!['F'],
        Cmd::Iter(n, body) => if n == 1 {
            seq_repr(body)
        } else if body.len() == 1 {
            decimal(n) + cmd_repr(body[0])
        } else {
            decimal(n) + seq!['('] + seq_repr(body) + seq![')']
        },
    }
}

/// The texts of the commands of `cs`, one after the other.
pub open spec fn seq_repr(cs: Seq<Cmd>) -> Seq<char>
    decreases cs, 1nat,
{
    if cs.len() == 0 {
        Seq::empty()
    } else {
        seq_repr(cs.subrange(0, cs.len() - 1)) + cmd_repr(cs[cs.len() - 1])
    }
}

/// The repetition of `k` forward moves.
pub fn f_block(k: usize) -> (c: Command)
    ensures c.model() == Cmd::Iter(k as nat, seq![Cmd::F]),
{
    let v = vec![Command::F];
    assert(v@ =~= seq![Command::F]);
    let c = Command::Iter(k, v);
    proof {
        assert(Command::F.model() == Cmd::F);
        assert(c.model()->Iter_1 =~= seq![Cmd::F]);
    }
    c
}

} // verus!

verus! {

/// The one-character text of the digit `d`.
fn digit_str(d: usize) -> (s: &'static str)
    requires
        d < 10,
    ensures
        s@ == seq![digit_char(d as int)],
{
    match d {
        0 => {
            proof { reveal_strlit("0"); }
            "0"
        },
        1 => {
            proof { reveal_strlit("1"); }
            "1"
        },
        2 => {
            proof { reveal_strlit("2"); }
            "2"
        },
        3 => {
            proof { reveal_strlit("3"); }
            "3"
        },
        4 => {
            proof { reveal_strlit("4"); }
            "4"
        },
        5 => {
            proof { reveal_strlit("5"); }
            "5"
        },
        6 => {
            proof { reveal_strlit("6"); }
            "6"
        },
        7 => {
            proof { reveal_strlit("7"); }
            "7"
        },
        8 => {
            proof { reveal_strlit("8"); }
            "8"
        },
        _ => {
            proof { reveal_strlit("9"); }
            "9"
        },
    }
}

/// The decimal numeral of `n`.
pub fn to_decimal(n: usize) -> (s: String)
    ensures
        s@ == decimal(n as nat),
    decreases n,
{
    if n < 10 {
        let mut s = String::new();
        s.append(digit_str(n));
        s
    } else {
        let mut s = to_decimal(n / 10);
        s.append(digit_str(n % 10));
        s
    }
}

/// A letter of a plain command.
fn letter(c: &Command) -> (s: &'static str)
    requires
        !(c.model() is Iter),
    ensures
        s@ == cmd_repr(c.model()),
{
    match c {
        Command::TurnR => {
            proof { reveal_strlit("R"); }
            "R"
        },
        Command::TurnL => {
            proof { reveal_strlit("L"); }
            "L"
        },
        Command::Turnr => {
            proof { reveal_strlit("r"); }
            "r"
        },
        Command::Turnl => {
            proof { reveal_strlit("l"); }
            "l"
        },
        _ => {
            proof { reveal_strlit("F"); }
            "F"
        },
    }
}

/// The text of a list of commands, one after the other.
pub fn commands_to_string(v: &Vec<Command>) -> (s: String)
    requires
        forall|i: int| 0 <= i < v@.len() ==> cmd_wf(#[trigger] v@[i].model()),
    ensures
        s@ == seq_repr(models(v@)),
{
    let mut s = String::new();
    for i in 0..v.len()
        invariant
            forall|i: int| 0 <= i < v@.len() ==> cmd_wf(#[trigger] v@[i].model()),
            s@ == seq_repr(models(v@).subrange(0, i as int)),
    {
        let t = v[i].to_string();
        s.append(t.as_str());
        proof {
            assert(models(v@).subrange(0, i + 1).subrange(0, i as int) =~= models(v@).subrange(0, i as int));
        }
    }
    proof {
        assert(models(v@).subrange(0, v@.len() as int) =~= models(v@));
    }
    s
}

impl Command {
    /// The text of the command; a repetition with count 0 or an empty body
    /// is excluded.
    pub fn to_string(&self) -> (s: String)
        requires
            cmd_wf(self.model()),
        ensures
            s@ == cmd_repr(self.model()),
        decreases self,
    {
        match self {
            Command::Iter(n, v) => {
                let ghost body = self.model()->Iter_1;
                proof {
                    assert(body =~= models(v@));
                    assert(self.model() == Cmd::Iter(*n as nat, body));
                    lemma_seq_wf(body);
                    assert(forall|i: int| 0 <= i < body.len() ==> #[trigger] cmd_wf(body[i]));
                    assert(decreases_to!(*self => *v));
                }
                if *n == 1 {
                    let mut s = String::new();
                    for i in 0..v.len()
                        invariant
                            *self == Command::Iter(*n, *v),
                            decreases_to!(*self => *v),
                            body == models(v@),
                            forall|i: int| 0 <= i < body.len() ==> cmd_wf(#[trigger] body[i]),
                            s@ == seq_repr(body.subrange(0, i as int)),
                    {
                        proof {
                            vstd::std_specs::vec::axiom_vec_index_decreases(*v, i as int);
                            assert(cmd_wf(body[i as int]));
                        }
                        let t = v[i].to_string();
                        s.append(t.as_str());
                        proof {
                            assert(body.subrange(0, i + 1).subrange(0, i as int) =~= body.subrange(0, i as int));
                        }
                    }
                    proof {
                        assert(body.subrange(0, v@.len() as int) =~= body);
                    }
                    s
                } else if v.len() == 1 {
                    let mut s = to_decimal(*n);
                    proof {
                        assert(decreases_to!(*self => *v));
                        vstd::std_specs::vec::axiom_vec_index_decreases(*v, 0);
                        assert(cmd_wf(body[0]));
                    }
                    let t = v[0].to_string();
                    s.append(t.as_str());
                    s
                } else {
                    let mut s = to_decimal(*n);
                    proof { reveal_strlit("("); }
                    s.append("(");
                    let ghost head = s@;
                    let mut i: usize = 0;
                    while i < v.len()
                        invariant
                            *self == Command::Iter(*n, *v),
                            decreases_to!(*self => *v),
                            body == models(v@),
                            0 <= i <= v@.len(),
                            forall|i: int| 0 <= i < body.len() ==> cmd_wf(#[trigger] body[i]),
                            s@ == head + seq_repr(body.subrange(0, i as int)),
                        decreases v@.len() - i,
                    {
                        proof {
                            vstd::std_specs::vec::axiom_vec_index_decreases(*v, i as int);
                            assert(cmd_wf(body[i as int]));
                        }
                        let t = v[i].to_string();
                        s.append(t.as_str());
                        proof {
                            assert(body.subrange(0, i + 1).subrange(0, i as int) =~= body.subrange(0, i as int));
                        }
                        i += 1;
                    }
                    proof {
                        reveal_strlit(")");
                        assert(body.subrange(0, v@.len() as int) =~= body);
                    }
                    s.append(")");
                    s
                }
            },
            _ => {
                let mut s = String::new();
                s.append(letter(self));
                s
            },
        }
    }

    /// A copy with the same model.
    pub fn deep_copy(&self) -> (c: Command)
        ensures
            c.model() == self.model(),
        decreases self,
    {
        match self {
            Command::TurnR => Command::TurnR,
            Command::TurnL => Command::TurnL,
            Command::Turnr => Command::Turnr,
            Command::Turnl => Command::Turnl,
            Command::F => Command::F,
            Command::Iter(n, v) => {
                let w = copy_commands_in(self, v);
                let c = Command::Iter(*n, w);
                proof {
                    assert(c.model()->Iter_1 =~= models(w@));
                    assert(self.model()->Iter_1 =~= models(v@));
                }
                c
            },
        }
    }
}

/// Copies the body `v` of the repetition `outer`.
fn copy_commands_in(outer: &Command, v: &Vec<Command>) -> (w: Vec<Command>)
    requires
        outer matches Command::Iter(_, b) && b == *v,
    ensures
        models(w@) == models(v@),
    decreases outer, 0nat,
{
    let mut w: Vec<Command> = Vec::new();
    for i in 0..v.len()
        invariant
            outer matches Command::Iter(_, b) && b == *v,
            w@.len() == i,
            forall|j: int| 0 <= j < i ==> #[trigger] w@[j].model() == v@[j].model(),
    {
        proof {
            vstd::std_specs::vec::axiom_vec_index_decreases(*v, i as int);
        }
        w.push(v[i].deep_copy());
    }
    assert(models(w@) =~= models(v@));
    w
}

impl Clone for Command {
    fn clone(&self) -> (c: Self)
        ensures
            c.model() == self.model(),
    {
        self.deep_copy()
    }
}

} // verus!

verus! {

/// The value of a string of decimal digits, read in base 10, each
/// character standing for its code less the code of `'0'`.
pub open spec fn numeral_value(s: Seq<char>) -> int
    decreases s.len(),
{
    if s.len() == 0 {
        0
    } else {
        numeral_value(s.drop_last()) * 10 + ((s.last() as u32) as int - ('0' as u32) as int)
    }
}

/// A character among `'0'` to `'9'`.
pub open spec fn is_digit(c: char) -> bool {
    ('0' as u32) <= (c as u32) <= ('9' as u32)
}

/// The decimal text of `n` is made of digits, has no leading zero, and read
/// back in base 10 gives `n`; so different numbers have different texts.
pub proof fn lemma_decimal_value(n: nat)
    ensures
        numeral_value(decimal(n)) == n,
        forall|i: int| 0 <= i < decimal(n).len() ==> is_digit(#[trigger] decimal(n)[i]),
        decimal(n).len() >= 1,
        n >= 1 ==> decimal(n)[0] != '0',
    decreases n,
{
    if n < 10 {
        let s = decimal(n);
        assert(s.drop_last() =~= Seq::<char>::empty());
        assert(numeral_value(s.drop_last()) == 0);
    } else {
        lemma_decimal_value(n / 10);
        let s = decimal(n);
        let p = decimal(n / 10);
        assert(s.drop_last() =~= p);
        assert(s[0] == p[0]);
        assert forall|i: int| 0 <= i < s.len() implies is_digit(#[trigger] s[i]) by {
            if i < p.len() {
                assert(s[i] == p[i]);
            }
        }
    }
}

/// Numbers with the same decimal text are equal.
pub proof fn lemma_decimal_injective(m: nat, n: nat)
    requires
        decimal(m) == decimal(n),
    ensures
        m == n,
{
    lemma_decimal_value(m);
    lemma_decimal_value(n);
}

} // verus!
