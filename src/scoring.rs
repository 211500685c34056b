//! Scoring an action sequence: the numeric score, the per-turn snapshots a
//! renderer needs, and readable error messages.

use vstd::prelude::*;
use vstd::slice::slice_to_vec;
use vstd::utf8::encode_utf8;
use crate::grid::GridState;
use crate::instance::{Action, Input, Output, action_on_grid};
use crate::replay::{lemma_waits_keep_budget, Failure, Replay, ReplayModel, Violation, judge, judge_spec, replay_spec, lemma_replay_turns, lemma_failure_sticks, phase_of};
use crate::text::{action_spec, is_blank, is_comment, line_end, lines_spec, read_spec, rest_blank, skip_space, token_end, int_of, digits_value, all_digits, digit_bytes, lemma_digit_bytes_value, ParseError, ParseErrorKind, input_spec, output_spec, parse_input, parse_output};

verus! {

/// The state after one turn, as a renderer shows it.
#[derive(Clone, Debug)]
pub struct Snapshot {
    /// Turns used.
    pub turn: usize,
    /// Money left.
    pub money: i64,
    /// Income of the last turn.
    pub income: i64,
    /// Cell codes, row by row: 0 empty, 1 to 6 a track shape, 7 a station.
    pub cells: Vec<u8>,
}

/// What went wrong when scoring texts.
#[derive(Clone, Copy, Debug, PartialEq, Eq, Structural)]
pub enum JudgeError {
    /// The instance text is malformed.
    Instance(ParseError),
    /// The action text is malformed.
    Actions(ParseError),
    /// The replay broke a rule.
    Rule(Failure),
}

/// The decimal digits of `v`, as characters.
pub open spec fn decimal(v: nat) -> Seq<char> {
    Seq::new(digit_bytes(v).len(), |i: int| digit_bytes(v)[i] as char)
}

/// Relies on `format!`: `what`, a space, `place`, a space, then `at` in decimal.
#[verifier::external_body]
fn locate(what: &str, place: &str, at: usize) -> (r: String)
    ensures
        r@ == what@ + seq![' '] + place@ + seq![' '] + decimal(at as nat),
{
    format!("{} {} {}", what, place, at)
}

/// Name of a parse error kind.
pub open spec fn parse_kind_text(k: ParseErrorKind) -> &'static str {
    match k {
        ParseErrorKind::UnexpectedEof => "unexpected end of text",
        ParseErrorKind::NotAnInteger => "not an integer",
        ParseErrorKind::OutOfRange => "value out of range",
        ParseErrorKind::TrailingToken => "trailing token",
    }
}

/// Name of a violation.
pub open spec fn violation_text(v: Violation) -> &'static str {
    match v {
        Violation::InsufficientFunds => "insufficient funds",
        Violation::CellOccupied => "cell occupied",
        Violation::TooManyActions => "too many actions",
        Violation::TooFewActions => "too few actions",
    }
}

/// The message for an error: its name, where it was found, and the byte
/// offset, line or turn in decimal.
pub open spec fn message_text(e: JudgeError) -> Seq<char> {
    match e {
        JudgeError::Instance(p) => parse_kind_text(p.kind)@ + seq![' '] + "in the instance at byte"@
            + seq![' '] + decimal(p.at as nat),
        JudgeError::Actions(p) => parse_kind_text(p.kind)@ + seq![' '] + "in the actions on line"@
            + seq![' '] + decimal(p.at as nat),
        JudgeError::Rule(f) => violation_text(f.violation)@ + seq![' '] + "at turn"@ + seq![' ']
            + decimal(f.turn as nat),
    }
}

/// Name of a parse error kind.
pub fn parse_kind_name(k: ParseErrorKind) -> (r: &'static str)
    ensures
        r == parse_kind_text(k),
{
    match k {
        ParseErrorKind::UnexpectedEof => "unexpected end of text",
        ParseErrorKind::NotAnInteger => "not an integer",
        ParseErrorKind::OutOfRange => "value out of range",
        ParseErrorKind::TrailingToken => "trailing token",
    }
}

/// Name of a violation.
pub fn violation_name(v: Violation) -> (r: &'static str)
    ensures
        r == violation_text(v),
{
    match v {
        Violation::InsufficientFunds => "insufficient funds",
        Violation::CellOccupied => "cell occupied",
        Violation::TooManyActions => "too many actions",
        Violation::TooFewActions => "too few actions",
    }
}

impl JudgeError {
    /// A readable message that names the fault and where it is: the byte
    /// offset in the instance, the line of the actions, or the turn.
    pub fn message(&self) -> (r: String)
        ensures
            r@ == message_text(*self),
            r@.len() > 0,
    {
        let r = match self {
            JudgeError::Instance(e) => locate(parse_kind_name(e.kind), "in the instance at byte", e.at),
            JudgeError::Actions(e) => locate(parse_kind_name(e.kind), "in the actions on line", e.at),
            JudgeError::Rule(f) => locate(violation_name(f.violation), "at turn", f.turn),
        };
        proof {
            let at: nat = match self {
                JudgeError::Instance(e) => e.at as nat,
                JudgeError::Actions(e) => e.at as nat,
                JudgeError::Rule(f) => f.turn as nat,
            };
            lemma_digit_bytes_value(at);
            assert(decimal(at).len() > 0);
        }
        r
    }
}

/// `snap` shows the state after the first `j` actions of `acts`.
pub open spec fn shows(input: Input, acts: Seq<Action>, snap: Snapshot, j: int) -> bool {
    replay_spec(input, acts, j as nat) is Ok && {
        let s = replay_spec(input, acts, j as nat)->Ok_0;
        &&& snap.turn == j
        &&& snap.money == s.grid.money
        &&& snap.income == s.income
        &&& snap.cells@ == s.grid.cells
    }
}

/// Replays `out` on `input` and records the state after every turn, the
/// state before the first turn included. Returns the score (the money left,
/// or 0 on failure), the first failure if any, and the snapshots.
pub fn compute_score_details(input: &Input, out: &[Action]) -> (r: (i64, Option<Failure>, Vec<Snapshot>))
    requires
        input.valid(),
        forall|i: int| 0 <= i < out@.len() ==> action_on_grid(#[trigger] out@[i]),
    ensures
        match judge_spec(*input, out@) {
            Ok(v) => r.0 == v && r.1 is None,
            Err(f) => r.0 == 0 && r.1 == Some(f),
        },
        r.2@.len() as int == match judge_spec(*input, out@) {
            Ok(_) => out@.len() as int + 1,
            Err(f) => f.turn as int + 1,
        },
        forall|i: int| 0 <= i < r.2@.len() ==> shows(*input, out@, #[trigger] r.2@[i], i),
{
    let mut rep = Replay::new(input);
    let mut snaps: Vec<Snapshot> = Vec::new();
    snaps.push(snapshot_of(&rep));
    let mut i: usize = 0;
    while i < out.len()
        invariant
            input.valid(),
            forall|i: int| 0 <= i < out@.len() ==> action_on_grid(#[trigger] out@[i]),
            i <= out@.len(),
            rep.wf(*input),
            replay_spec(*input, out@, i as nat) == Ok::<ReplayModel, Failure>(rep@),
            rep.phase_spec() == phase_of(i as nat, input.t as nat),
            snaps@.len() == i + 1,
            forall|j: int| 0 <= j < snaps@.len() ==> shows(*input, out@, #[trigger] snaps@[j], j),
        decreases out@.len() - i,
    {
        proof {
            lemma_replay_turns(*input, out@, i as nat);
        }
        match rep.step(input, out[i]) {
            Err(f) => {
                proof {
                    lemma_failure_sticks(*input, out@, (i + 1) as nat, out@.len());
                }
                return (0, Some(f), snaps);
            },
            Ok(()) => {},
        }
        i = i + 1;
        proof {
            lemma_replay_turns(*input, out@, i as nat);
        }
        let snap = snapshot_of(&rep);
        let ghost before = snaps@;
        snaps.push(snap);
        proof {
            assert forall|j: int| 0 <= j < snaps@.len() implies shows(*input, out@, #[trigger] snaps@[j], j) by {
                if j < before.len() {
                    assert(snaps@[j] == before[j]);
                } else {
                    assert(snaps@[j] == snap);
                }
            }
        }
    }
    proof {
        lemma_replay_turns(*input, out@, i as nat);
    }
    if rep.turn() < input.t {
        (0, Some(Failure { turn: rep.turn(), violation: Violation::TooFewActions }), snaps)
    } else {
        (rep.money(), None, snaps)
    }
}

fn snapshot_of(rep: &Replay) -> (s: Snapshot)
    ensures
        s.turn == rep@.turn,
        s.money == rep@.grid.money,
        s.income == rep@.income,
        s.cells@ == rep@.grid.cells,
{
    let grid: &GridState = rep.grid();
    Snapshot {
        turn: rep.turn(),
        money: rep.money(),
        income: rep.income(),
        cells: slice_to_vec(grid.cells().as_slice()),
    }
}

/// The score of `out` on `input` and an error message: the money left and
/// an empty message on success, 0 and a message naming the fault otherwise.
pub fn compute_score(input: &Input, out: &Output) -> (r: (i64, String))
    requires
        input.valid(),
        forall|i: int| 0 <= i < out.out@.len() ==> action_on_grid(#[trigger] out.out@[i]),
    ensures
        match judge_spec(*input, out.out@) {
            Ok(v) => r.0 == v && r.1@.len() == 0,
            Err(f) => r.0 == 0 && r.1@ == message_text(JudgeError::Rule(f)) && r.1@.len() > 0,
        },
{
    match judge(input, &out.out) {
        Ok(v) => (v, String::new()),
        Err(f) => (0, JudgeError::Rule(f).message()),
    }
}

/// What scoring the instance text `inp` against the action text `outp`
/// yields: the score, or why there is none.
pub open spec fn score_spec(inp: Seq<u8>, outp: Seq<u8>, input: Input) -> Result<int, JudgeError> {
    match input_spec(inp) {
        Err(e) => Err(JudgeError::Instance(e)),
        Ok(_) => match output_spec(outp) {
            Err(e) => Err(JudgeError::Actions(e)),
            Ok((acts, _)) => match judge_spec(input, acts) {
                Ok(v) => Ok(v),
                Err(f) => Err(JudgeError::Rule(f)),
            },
        },
    }
}

/// Whether `input` holds the fields that `input_spec` reads from `b`.
pub open spec fn read_from(b: Seq<u8>, input: Input) -> bool {
    match input_spec(b) {
        Ok((n, m, k, t, cs)) => input.n == n && input.m == m && input.k == k && input.t == t
            && input.commuters@ == cs && input.valid(),
        Err(_) => true,
    }
}

/// Scores the action text `output` against the instance text `input`: the
/// money left and an empty message, or 0 and a message naming the first
/// fault (a malformed text or a broken rule).
pub fn score(input: String, output: String) -> (r: (i64, String))
    ensures
        exists|inp: Input|
            read_from(encode_utf8(input@), inp) && match score_spec(
                encode_utf8(input@),
                encode_utf8(output@),
                inp,
            ) {
                Ok(v) => r.0 == v && r.1@.len() == 0,
                Err(e) => r.0 == 0 && r.1@ == message_text(e) && r.1@.len() > 0,
            },
{
    let parsed = parse_input(input.as_str());
    let inp = match parsed {
        Ok(i) => i,
        Err(e) => {
            let dummy = Input { n: 50, m: 0, k: 0, t: 0, commuters: Vec::new() };
            let ghost d = dummy;
            assert(read_from(encode_utf8(input@), d));
            return (0, JudgeError::Instance(e).message());
        },
    };
    let out = match parse_output(&inp, output.as_str()) {
        Ok(o) => o,
        Err(e) => {
            let ghost d = inp;
            assert(read_from(encode_utf8(input@), d));
            return (0, JudgeError::Actions(e).message());
        },
    };
    let ghost d = inp;
    assert(read_from(encode_utf8(input@), d));
    compute_score(&inp, &out)
}


/// The action text of `t` waits: the line `-1`, `t` times.
pub open spec fn waits_text(t: nat) -> Seq<u8>
    decreases t,
{
    if t == 0 {
        Seq::empty()
    } else {
        seq![45u8, 49u8, 10u8] + waits_text((t - 1) as nat)
    }
}

proof fn lemma_wait_line(l: Seq<u8>)
    requires
        l == seq![45u8, 49u8],
    ensures
        !is_blank(l),
        !is_comment(l),
        action_spec(l) == Ok::<Action, ParseErrorKind>(Action::Wait),
{
    reveal(read_spec);
    assert(skip_space(l, 0) == 0);
    assert(token_end(l, 2) == 2);
    assert(token_end(l, 1) == 2);
    assert(token_end(l, 0) == 2);
    let tok = l.subrange(0, 2);
    assert(tok =~= l);
    let d = tok.subrange(1, 2);
    assert(d =~= seq![49u8]);
    assert(all_digits(d));
    assert(d.drop_last() =~= Seq::<u8>::empty());
    assert(d.last() == 49);
    assert(digits_value(d.drop_last()) == 0);
    assert(digits_value(d) == digits_value(d.drop_last()) * 10 + (d.last() - 48));
    assert(digits_value(d) == 1);
    assert(int_of(tok) == Some(-1int));
    assert(skip_space(l, 2) == 2);
    assert(rest_blank(l, 2));
}

proof fn lemma_read_waits(
    b: Seq<u8>,
    x: Seq<u8>,
    j: nat,
    line: nat,
    note: Seq<u8>,
    acts: Seq<Action>,
    notes: Seq<Seq<u8>>,
)
    requires
        b == x + waits_text(j),
    ensures
        lines_spec(b, x.len() as int, line, note, acts, notes) is Ok,
        lines_spec(b, x.len() as int, line, note, acts, notes)->Ok_0.0 == acts + Seq::new(
            j,
            |i: int| Action::Wait,
        ),
    decreases j,
{
    let pos = x.len() as int;
    if j == 0 {
        assert(b =~= x);
        assert(acts + Seq::new(0, |i: int| Action::Wait) =~= acts);
    } else {
        let x2 = x + seq![45u8, 49u8, 10u8];
        assert(b =~= x2 + waits_text((j - 1) as nat));
        assert(b[pos] == 45 && b[pos + 1] == 49 && b[pos + 2] == 10);
        assert(line_end(b, pos + 2) == pos + 2);
        assert(line_end(b, pos + 1) == pos + 2);
        assert(line_end(b, pos) == pos + 2);
        let l = b.subrange(pos, pos + 2);
        assert(l =~= seq![45u8, 49u8]);
        lemma_wait_line(l);
        lemma_read_waits(b, x2, (j - 1) as nat, line + 1, Seq::empty(), acts.push(Action::Wait), notes.push(note));
        assert(acts.push(Action::Wait) + Seq::new((j - 1) as nat, |i: int| Action::Wait) =~= acts + Seq::new(
            j,
            |i: int| Action::Wait,
        ));
    }
}

/// Scoring exactly the turn limit's worth of waits, written as text,
/// against any well-formed instance text gives its starting budget.
pub proof fn lemma_waits_text_score(inp: Seq<u8>, input: Input)
    requires
        input_spec(inp) is Ok,
        read_from(inp, input),
    ensures
        score_spec(inp, waits_text(input.t as nat), input) == Ok::<int, JudgeError>(input.k as int),
{
    let b = waits_text(input.t as nat);
    assert(b =~= Seq::<u8>::empty() + b);
    lemma_read_waits(b, Seq::empty(), input.t as nat, 1, Seq::empty(), Seq::empty(), Seq::empty());
    let acts = Seq::new(input.t as nat, |i: int| Action::Wait);
    assert(Seq::<Action>::empty() + acts =~= acts);
    lemma_waits_keep_budget(input, acts);
}

} // verus!
