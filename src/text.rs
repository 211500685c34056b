//! Text forms of instances and action sequences.
//!
//! An instance is `n m k t` followed by one `r0 c0 r1 c1` line per commuter.
//! An action sequence has one action per line: `-1` (wait), `0 r c`
//! (station) or `s r c` with a track shape `s` from 1 to 6. Blank lines are
//! skipped; lines starting with `#` are notes attached to the next action.

use vstd::prelude::*;
use vstd::string::StringSliceAdditionalSpecFns;
use vstd::slice::{slice_subrange, slice_to_vec};
use vstd::utf8::{encode_utf8, is_ascii_chars, is_ascii_chars_encode_utf8};
use crate::grid::{Shape, on_grid};
use crate::instance::{
    Action, Commuter, Input, Output, action_on_grid, commuter_on_grid, MAX_BUDGET, MAX_COMMUTERS, MAX_TURNS, MIN_BUDGET,
};

verus! {

/// One more than the magnitude of the most negative `i64`: digit strings
/// whose value reaches it cannot be an `i64`, whatever their sign.
pub const VALUE_CAP: u64 = 9223372036854775809;

/// What is wrong with a piece of text.
#[derive(Clone, Copy, Debug, PartialEq, Eq, Structural)]
pub enum ParseErrorKind {
    /// The text ended where a value was due.
    UnexpectedEof,
    /// A token is not a decimal integer.
    NotAnInteger,
    /// An integer lies outside the range allowed where it stands.
    OutOfRange,
    /// A line holds more tokens than its action takes.
    TrailingToken,
}

/// A parse failure: its kind, and where it was found (the byte offset of the
/// token in an instance, the 1-based line number in an action sequence).
#[derive(Clone, Copy, Debug, PartialEq, Eq, Structural)]
pub struct ParseError {
    pub at: usize,
    pub kind: ParseErrorKind,
}

/// Space, tab, line feed or carriage return.
pub open spec fn is_space(c: u8) -> bool {
    c == 32 || c == 9 || c == 10 || c == 13
}

/// An ASCII decimal digit.
pub open spec fn is_digit(c: u8) -> bool {
    48 <= c <= 57
}

/// The first position at or after `pos` that is not a space.
pub open spec fn skip_space(b: Seq<u8>, pos: int) -> int
    decreases b.len() - pos,
{
    if 0 <= pos < b.len() && is_space(b[pos]) {
        skip_space(b, pos + 1)
    } else {
        pos
    }
}

/// The end of the token that starts at `pos`.
pub open spec fn token_end(b: Seq<u8>, pos: int) -> int
    decreases b.len() - pos,
{
    if 0 <= pos < b.len() && !is_space(b[pos]) {
        token_end(b, pos + 1)
    } else {
        pos
    }
}

/// The value of a string of decimal digits.
pub open spec fn digits_value(s: Seq<u8>) -> int
    decreases s.len(),
{
    if s.len() == 0 {
        0
    } else {
        digits_value(s.drop_last()) * 10 + (s.last() - 48)
    }
}

/// Every byte of `s` is a digit.
pub open spec fn all_digits(s: Seq<u8>) -> bool {
    forall|i: int| 0 <= i < s.len() ==> is_digit(#[trigger] s[i])
}

/// The integer that a token spells: digits with an optional leading `-` or
/// `+`, whose value fits an `i64`.
pub open spec fn int_of(s: Seq<u8>) -> Option<int> {
    let signed = s.len() > 0 && (s[0] == 45 || s[0] == 43);
    let d = if signed {
        s.subrange(1, s.len() as int)
    } else {
        s
    };
    if d.len() > 0 && all_digits(d) {
        let v = if s[0] == 45 {
            -digits_value(d)
        } else {
            digits_value(d)
        };
        if i64::MIN <= v <= i64::MAX {
            Some(v)
        } else {
            None
        }
    } else {
        None
    }
}

/// Reading one integer in `lo..=hi` at `pos`: the value and the position
/// after it, or why none can be read.
#[verifier::opaque]
pub open spec fn read_spec(b: Seq<u8>, pos: int, lo: int, hi: int) -> Result<(int, int), ParseErrorKind> {
    let s = skip_space(b, pos);
    if s >= b.len() {
        Err(ParseErrorKind::UnexpectedEof)
    } else {
        let e = token_end(b, s);
        match int_of(b.subrange(s, e)) {
            None => Err(ParseErrorKind::NotAnInteger),
            Some(v) => if v < lo || v > hi {
                Err(ParseErrorKind::OutOfRange)
            } else {
                Ok((v, e))
            },
        }
    }
}

proof fn lemma_digits_nonneg(s: Seq<u8>)
    requires
        all_digits(s),
    ensures
        digits_value(s) >= 0,
    decreases s.len(),
{
    if s.len() > 0 {
        lemma_digits_nonneg(s.drop_last());
    }
}

fn skip_space_exec(b: &[u8], pos: usize) -> (r: usize)
    requires
        pos <= b@.len(),
    ensures
        r == skip_space(b@, pos as int),
        pos <= r <= b@.len(),
        r < b@.len() ==> !is_space(b@[r as int]),
{
    let mut p = pos;
    while p < b.len() && (b[p] == 32 || b[p] == 9 || b[p] == 10 || b[p] == 13)
        invariant
            pos <= p <= b@.len(),
            skip_space(b@, pos as int) == skip_space(b@, p as int),
        decreases b@.len() - p,
    {
        p = p + 1;
    }
    p
}

fn token_end_exec(b: &[u8], pos: usize) -> (r: usize)
    requires
        pos <= b@.len(),
    ensures
        r == token_end(b@, pos as int),
        pos <= r <= b@.len(),
        forall|i: int| pos <= i < r ==> !is_space(#[trigger] b@[i]),
        pos < b@.len() && !is_space(b@[pos as int]) ==> r > pos,
{
    let mut p = pos;
    while p < b.len() && !(b[p] == 32 || b[p] == 9 || b[p] == 10 || b[p] == 13)
        invariant
            pos <= p <= b@.len(),
            token_end(b@, pos as int) == token_end(b@, p as int),
            forall|i: int| pos <= i < p ==> !is_space(#[trigger] b@[i]),
        decreases b@.len() - p,
    {
        p = p + 1;
    }
    p
}

/// The value of the digits `b[s..e]`, capped at `VALUE_CAP`, or `None` when
/// some byte there is not a digit.
fn capped_digits(b: &[u8], s: usize, e: usize) -> (r: Option<u64>)
    requires
        s <= e <= b@.len(),
    ensures
        match r {
            Some(v) => all_digits(b@.subrange(s as int, e as int)) && v == if digits_value(
                b@.subrange(s as int, e as int),
            ) < VALUE_CAP {
                digits_value(b@.subrange(s as int, e as int))
            } else {
                VALUE_CAP as int
            },
            None => !all_digits(b@.subrange(s as int, e as int)),
        },
{
    let mut acc: u64 = 0;
    let mut j: usize = s;
    while j < e
        invariant
            s <= j <= e <= b@.len(),
            all_digits(b@.subrange(s as int, j as int)),
            acc <= VALUE_CAP,
            acc == if digits_value(b@.subrange(s as int, j as int)) < VALUE_CAP {
                digits_value(b@.subrange(s as int, j as int))
            } else {
                VALUE_CAP as int
            },
        decreases e - j,
    {
        let c = b[j];
        if c < 48 || c > 57 {
            proof {
                assert(b@.subrange(s as int, e as int)[j - s] == c);
            }
            return None;
        }
        let ghost prev = b@.subrange(s as int, j as int);
        proof {
            assert(b@.subrange(s as int, j + 1).drop_last() =~= prev);
            lemma_digits_nonneg(prev);
            assert(all_digits(b@.subrange(s as int, j + 1))) by {
                assert forall|i: int| 0 <= i < j + 1 - s implies is_digit(
                    #[trigger] b@.subrange(s as int, j + 1)[i],
                ) by {
                    if i < j - s {
                        assert(b@.subrange(s as int, j + 1)[i] == prev[i]);
                    }
                }
            }
        }
        if acc < VALUE_CAP {
            acc = if acc >= 922337203685477581 {
                VALUE_CAP
            } else {
                let next = acc * 10 + (c - 48) as u64;
                if next < VALUE_CAP {
                    next
                } else {
                    VALUE_CAP
                }
            };
        }
        j = j + 1;
    }
    Some(acc)
}

/// Reads one integer in `lo..=hi` at `pos`: the value and the position after
/// its token.
pub fn read(b: &[u8], pos: usize, lo: i64, hi: i64) -> (r: Result<(i64, usize), ParseErrorKind>)
    requires
        pos <= b@.len(),
        -1000000000 <= lo <= hi <= 1000000000,
    ensures
        match r {
            Ok((v, e)) => read_spec(b@, pos as int, lo as int, hi as int) == Ok::<
                (int, int),
                ParseErrorKind,
            >((v as int, e as int)) && lo <= v <= hi && pos <= e <= b@.len(),
            Err(k) => read_spec(b@, pos as int, lo as int, hi as int) == Err::<(int, int), ParseErrorKind>(
                k,
            ),
        },
{
    proof {
        reveal(read_spec);
    }
    let s = skip_space_exec(b, pos);
    if s >= b.len() {
        return Err(ParseErrorKind::UnexpectedEof);
    }
    let e = token_end_exec(b, s);
    let ghost tok = b@.subrange(s as int, e as int);
    let neg = b[s] == 45;
    let start = if b[s] == 45 || b[s] == 43 {
        s + 1
    } else {
        s
    };
    proof {
        assert(tok.len() > 0);
        assert(tok[0] == b@[s as int]);
        if start > s {
            assert(tok.subrange(1, tok.len() as int) =~= b@.subrange(start as int, e as int));
        } else {
            assert(tok =~= b@.subrange(start as int, e as int));
        }
    }
    if start == e {
        return Err(ParseErrorKind::NotAnInteger);
    }
    let value: i128 = match capped_digits(b, start, e) {
        None => {
            return Err(ParseErrorKind::NotAnInteger);
        },
        Some(v) => {
            proof {
                lemma_digits_nonneg(b@.subrange(start as int, e as int));
            }
            if neg {
                if v > 9223372036854775808 {
                    return Err(ParseErrorKind::NotAnInteger);
                }
                -(v as i128)
            } else {
                if v > 9223372036854775807 {
                    return Err(ParseErrorKind::NotAnInteger);
                }
                v as i128
            }
        },
    };
    if value < lo as i128 || value > hi as i128 {
        Err(ParseErrorKind::OutOfRange)
    } else {
        Ok((value as i64, e))
    }
}

/// Reading one integer of an instance: failures carry the byte offset of the
/// token at fault.
pub open spec fn field_spec(b: Seq<u8>, pos: int, lo: int, hi: int) -> Result<(int, int), ParseError> {
    match read_spec(b, pos, lo, hi) {
        Ok(x) => Ok(x),
        Err(k) => Err(ParseError { at: skip_space(b, pos) as usize, kind: k }),
    }
}

/// Reading one commuter line at `pos`.
pub open spec fn commuter_spec(b: Seq<u8>, pos: int) -> Result<(Commuter, int), ParseError> {
    match field_spec(b, pos, 0, 49) {
        Err(e) => Err(e),
        Ok((r0, p1)) => match field_spec(b, p1, 0, 49) {
            Err(e) => Err(e),
            Ok((c0, p2)) => match field_spec(b, p2, 0, 49) {
                Err(e) => Err(e),
                Ok((r1, p3)) => match field_spec(b, p3, 0, 49) {
                    Err(e) => Err(e),
                    Ok((c1, p4)) => Ok(
                        (
                            Commuter {
                                r0: r0 as usize,
                                c0: c0 as usize,
                                r1: r1 as usize,
                                c1: c1 as usize,
                            },
                            p4,
                        ),
                    ),
                },
            },
        },
    }
}

/// Reading `k` commuters from `pos` on.
pub open spec fn commuters_spec(b: Seq<u8>, pos: int, k: nat) -> Result<(Seq<Commuter>, int), ParseError>
    decreases k,
{
    if k == 0 {
        Ok((Seq::empty(), pos))
    } else {
        match commuters_spec(b, pos, (k - 1) as nat) {
            Err(e) => Err(e),
            Ok((cs, p)) => match commuter_spec(b, p) {
                Err(e) => Err(e),
                Ok((cm, p2)) => Ok((cs.push(cm), p2)),
            },
        }
    }
}

/// The fields of an instance read from `b`: side, count, budget, turn
/// limit and commuters.
pub open spec fn input_spec(b: Seq<u8>) -> Result<(int, int, int, int, Seq<Commuter>), ParseError> {
    match field_spec(b, 0, 50, 50) {
        Err(e) => Err(e),
        Ok((n, p1)) => match field_spec(b, p1, 1, MAX_COMMUTERS as int) {
            Err(e) => Err(e),
            Ok((m, p2)) => match field_spec(b, p2, MIN_BUDGET as int, MAX_BUDGET as int) {
                Err(e) => Err(e),
                Ok((k, p3)) => match field_spec(b, p3, 1, MAX_TURNS as int) {
                    Err(e) => Err(e),
                    Ok((t, p4)) => match commuters_spec(b, p4, m as nat) {
                        Err(e) => Err(e),
                        Ok((cs, _)) => Ok((n, m, k, t, cs)),
                    },
                },
            },
        },
    }
}

/// Whether `r` is what `input_spec` reads from `b`.
pub open spec fn input_matches(b: Seq<u8>, r: Result<Input, ParseError>) -> bool {
    match input_spec(b) {
        Ok((n, m, k, t, cs)) => r is Ok && {
            let inp = r->Ok_0;
            inp.n == n && inp.m == m && inp.k == k && inp.t == t && inp.commuters@ == cs
                && inp.valid()
        },
        Err(e) => r == Err::<Input, ParseError>(e),
    }
}

fn field(b: &[u8], pos: usize, lo: i64, hi: i64) -> (r: Result<(i64, usize), ParseError>)
    requires
        pos <= b@.len(),
        -1000000000 <= lo <= hi <= 1000000000,
    ensures
        match r {
            Ok((v, e)) => field_spec(b@, pos as int, lo as int, hi as int) == Ok::<
                (int, int),
                ParseError,
            >((v as int, e as int)) && lo <= v <= hi && pos <= e <= b@.len(),
            Err(e) => field_spec(b@, pos as int, lo as int, hi as int) == Err::<(int, int), ParseError>(
                e,
            ),
        },
{
    match read(b, pos, lo, hi) {
        Ok(x) => Ok(x),
        Err(k) => Err(ParseError { at: skip_space_exec(b, pos), kind: k }),
    }
}

fn commuter(b: &[u8], pos: usize) -> (r: Result<(Commuter, usize), ParseError>)
    requires
        pos <= b@.len(),
    ensures
        match r {
            Ok((cm, e)) => commuter_spec(b@, pos as int) == Ok::<(Commuter, int), ParseError>(
                (cm, e as int),
            ) && pos <= e <= b@.len() && on_grid(cm.r0 as int, cm.c0 as int) && on_grid(
                cm.r1 as int,
                cm.c1 as int,
            ),
            Err(e) => commuter_spec(b@, pos as int) == Err::<(Commuter, int), ParseError>(e),
        },
{
    let (r0, p1) = match field(b, pos, 0, 49) {
        Ok(x) => x,
        Err(e) => return Err(e),
    };
    let (c0, p2) = match field(b, p1, 0, 49) {
        Ok(x) => x,
        Err(e) => return Err(e),
    };
    let (r1, p3) = match field(b, p2, 0, 49) {
        Ok(x) => x,
        Err(e) => return Err(e),
    };
    let (c1, p4) = match field(b, p3, 0, 49) {
        Ok(x) => x,
        Err(e) => return Err(e),
    };
    Ok((Commuter { r0: r0 as usize, c0: c0 as usize, r1: r1 as usize, c1: c1 as usize }, p4))
}

/// Reads an instance from its text form.
pub fn parse_input(f: &str) -> (r: Result<Input, ParseError>)
    ensures
        input_matches(f.spec_bytes(), r),
{
    let b = f.as_bytes();
    let (n, p1) = match field(b, 0, 50, 50) {
        Ok(x) => x,
        Err(e) => return Err(e),
    };
    let (m, p2) = match field(b, p1, 1, MAX_COMMUTERS as i64) {
        Ok(x) => x,
        Err(e) => return Err(e),
    };
    let (k, p3) = match field(b, p2, MIN_BUDGET, MAX_BUDGET) {
        Ok(x) => x,
        Err(e) => return Err(e),
    };
    let (t, p4) = match field(b, p3, 1, MAX_TURNS as i64) {
        Ok(x) => x,
        Err(e) => return Err(e),
    };
    let mut commuters: Vec<Commuter> = Vec::new();
    let mut pos = p4;
    let mut i: usize = 0;
    while i < m as usize
        invariant
            b@ == f.spec_bytes(),
            1 <= m <= MAX_COMMUTERS,
            i <= m,
            pos <= b@.len(),
            commuters_spec(b@, p4 as int, i as nat) == Ok::<(Seq<Commuter>, int), ParseError>(
                (commuters@, pos as int),
            ),
            forall|j: int| 0 <= j < i ==> commuter_on_grid(#[trigger] commuters@[j]),
            input_spec(b@) == match commuters_spec(b@, p4 as int, m as nat) {
                Err(e) => Err(e),
                Ok((cs, _)) => Ok((n as int, m as int, k as int, t as int, cs)),
            },
        decreases m - i,
    {
        proof {
            lemma_commuters_len(b@, p4 as int, i as nat);
        }
        match commuter(b, pos) {
            Ok((cm, e)) => {
                commuters.push(cm);
                pos = e;
                proof {
                    assert(commuter_on_grid(commuters@[i as int]));
                }
            },
            Err(e) => {
                proof {
                    lemma_commuters_fail(b@, p4 as int, (i + 1) as nat, m as nat);
                    assert(commuters_spec(b@, p4 as int, (i + 1) as nat) == Err::<(Seq<Commuter>, int), ParseError>(e));
                    assert(input_spec(b@) == Err::<(int, int, int, int, Seq<Commuter>), ParseError>(e));
                }
                return Err(e);
            },
        }
        i = i + 1;
    }
    proof {
        lemma_commuters_len(b@, p4 as int, i as nat);
        assert(input_spec(b@) == Ok::<(int, int, int, int, Seq<Commuter>), ParseError>((n as int, m as int, k as int, t as int, commuters@)));
    }
    let r = Input { n: n as usize, m: m as usize, k, t: t as usize, commuters };
    assert(r.valid());
    Ok(r)
}

proof fn lemma_commuters_len(b: Seq<u8>, pos: int, k: nat)
    ensures
        commuters_spec(b, pos, k) is Ok ==> commuters_spec(b, pos, k)->Ok_0.0.len() == k,
    decreases k,
{
    if k > 0 {
        lemma_commuters_len(b, pos, (k - 1) as nat);
    }
}

proof fn lemma_commuters_fail(b: Seq<u8>, pos: int, i: nat, j: nat)
    requires
        i <= j,
        commuters_spec(b, pos, i) is Err,
    ensures
        commuters_spec(b, pos, j) == commuters_spec(b, pos, i),
    decreases j - i,
{
    if j > i {
        lemma_commuters_fail(b, pos, i, (j - 1) as nat);
    }
}

/// The end of the line that starts at `pos` (the next line feed, or the end).
pub open spec fn line_end(b: Seq<u8>, pos: int) -> int
    decreases b.len() - pos,
{
    if 0 <= pos < b.len() && b[pos] != 10 {
        line_end(b, pos + 1)
    } else {
        pos
    }
}

/// A line of spaces only.
pub open spec fn is_blank(l: Seq<u8>) -> bool {
    skip_space(l, 0) >= l.len()
}

/// A line whose first byte other than a space is `#`.
pub open spec fn is_comment(l: Seq<u8>) -> bool {
    skip_space(l, 0) < l.len() && l[skip_space(l, 0)] == 35
}

/// The text of a comment line, after its `#`.
pub open spec fn comment_text(l: Seq<u8>) -> Seq<u8> {
    l.subrange(skip_space(l, 0) + 1, l.len() as int)
}

/// Notes gathered so far, with one more comment line.
pub open spec fn join_note(note: Seq<u8>, text: Seq<u8>) -> Seq<u8> {
    if note.len() == 0 {
        text
    } else {
        note + seq![10u8] + text
    }
}

/// Nothing but spaces from `pos` on.
pub open spec fn rest_blank(l: Seq<u8>, pos: int) -> bool {
    skip_space(l, pos) >= l.len()
}

/// The track shape with number `k` (1 to 6).
pub open spec fn shape_of(k: int) -> Shape {
    if k == 1 {
        Shape::Horizontal
    } else if k == 2 {
        Shape::Vertical
    } else if k == 3 {
        Shape::LeftDown
    } else if k == 4 {
        Shape::LeftUp
    } else if k == 5 {
        Shape::UpRight
    } else {
        Shape::RightDown
    }
}

/// The action on a line that is neither blank nor a comment.
pub open spec fn action_spec(l: Seq<u8>) -> Result<Action, ParseErrorKind> {
    match read_spec(l, 0, -1, 6) {
        Err(k) => Err(k),
        Ok((kind, p1)) => if kind == -1 {
            if rest_blank(l, p1) {
                Ok(Action::Wait)
            } else {
                Err(ParseErrorKind::TrailingToken)
            }
        } else {
            match read_spec(l, p1, 0, 49) {
                Err(k) => Err(k),
                Ok((r, p2)) => match read_spec(l, p2, 0, 49) {
                    Err(k) => Err(k),
                    Ok((c, p3)) => if !rest_blank(l, p3) {
                        Err(ParseErrorKind::TrailingToken)
                    } else if kind == 0 {
                        Ok(Action::Station { r: r as usize, c: c as usize })
                    } else {
                        Ok(Action::Track { shape: shape_of(kind), r: r as usize, c: c as usize })
                    },
                },
            }
        },
    }
}

/// Reading the lines from `pos` on, numbered from `line`, with `note`
/// pending for the next action, after `acts` and `notes` were read.
pub open spec fn lines_spec(
    b: Seq<u8>,
    pos: int,
    line: nat,
    note: Seq<u8>,
    acts: Seq<Action>,
    notes: Seq<Seq<u8>>,
) -> Result<(Seq<Action>, Seq<Seq<u8>>), ParseError>
    decreases b.len() + 1 - pos,
{
    if pos < 0 || pos >= b.len() {
        Ok((acts, notes))
    } else {
        let e = line_end(b, pos);
        let l = b.subrange(pos, e);
        if e < pos || e > b.len() {
            Ok((acts, notes))
        } else if is_blank(l) {
            lines_spec(b, e + 1, line + 1, note, acts, notes)
        } else if is_comment(l) {
            lines_spec(b, e + 1, line + 1, join_note(note, comment_text(l)), acts, notes)
        } else {
            match action_spec(l) {
                Err(k) => Err(ParseError { at: line as usize, kind: k }),
                Ok(a) => lines_spec(b, e + 1, line + 1, Seq::empty(), acts.push(a), notes.push(note)),
            }
        }
    }
}

/// The actions and notes read from the text `b`.
pub open spec fn output_spec(b: Seq<u8>) -> Result<(Seq<Action>, Seq<Seq<u8>>), ParseError> {
    lines_spec(b, 0, 1, Seq::empty(), Seq::empty(), Seq::empty())
}

fn line_end_exec(b: &[u8], pos: usize) -> (r: usize)
    requires
        pos <= b@.len(),
    ensures
        r == line_end(b@, pos as int),
        pos <= r <= b@.len(),
{
    let mut p = pos;
    while p < b.len() && b[p] != 10
        invariant
            pos <= p <= b@.len(),
            line_end(b@, pos as int) == line_end(b@, p as int),
        decreases b@.len() - p,
    {
        p = p + 1;
    }
    p
}

fn shape_of_exec(k: i64) -> (s: Shape)
    ensures
        s == shape_of(k as int),
{
    if k == 1 {
        Shape::Horizontal
    } else if k == 2 {
        Shape::Vertical
    } else if k == 3 {
        Shape::LeftDown
    } else if k == 4 {
        Shape::LeftUp
    } else if k == 5 {
        Shape::UpRight
    } else {
        Shape::RightDown
    }
}

/// Reads the action on one line that is neither blank nor a comment.
pub fn parse_action(l: &[u8]) -> (r: Result<Action, ParseErrorKind>)
    ensures
        r == action_spec(l@),
        r is Ok ==> action_on_grid(r->Ok_0),
{
    let (kind, p1) = match read(l, 0, -1, 6) {
        Ok(x) => x,
        Err(k) => return Err(k),
    };
    if kind == -1 {
        if skip_space_exec(l, p1) >= l.len() {
            return Ok(Action::Wait);
        } else {
            return Err(ParseErrorKind::TrailingToken);
        }
    }
    let (r, p2) = match read(l, p1, 0, 49) {
        Ok(x) => x,
        Err(k) => return Err(k),
    };
    let (c, p3) = match read(l, p2, 0, 49) {
        Ok(x) => x,
        Err(k) => return Err(k),
    };
    if skip_space_exec(l, p3) < l.len() {
        Err(ParseErrorKind::TrailingToken)
    } else if kind == 0 {
        Ok(Action::Station { r: r as usize, c: c as usize })
    } else {
        Ok(Action::Track { shape: shape_of_exec(kind), r: r as usize, c: c as usize })
    }
}

/// The byte sequences that a list of notes holds.
pub open spec fn notes_view(notes: Seq<Vec<u8>>) -> Seq<Seq<u8>> {
    Seq::new(notes.len(), |i: int| notes[i]@)
}

/// Reads an action sequence from its text form.
pub fn parse_output(_input: &Input, f: &str) -> (r: Result<Output, ParseError>)
    ensures
        match output_spec(f.spec_bytes()) {
            Ok((acts, notes)) => r is Ok && r->Ok_0.out@ == acts && notes_view(r->Ok_0.notes@)
                == notes,
            Err(e) => r == Err::<Output, ParseError>(e),
        },
        r is Ok ==> forall|i: int|
            0 <= i < r->Ok_0.out@.len() ==> action_on_grid(#[trigger] r->Ok_0.out@[i]),
{
    let b = f.as_bytes();
    let mut out: Vec<Action> = Vec::new();
    let mut notes: Vec<Vec<u8>> = Vec::new();
    let mut note: Vec<u8> = Vec::new();
    let mut pos: usize = 0;
    let mut done: usize = 0;
    assert(notes_view(notes@) =~= Seq::<Seq<u8>>::empty());
    while pos < b.len()
        invariant
            b@ == f.spec_bytes(),
            pos <= b@.len(),
            done <= pos,
            output_spec(b@) == lines_spec(b@, pos as int, (done + 1) as nat, note@, out@, notes_view(notes@)),
            forall|i: int| 0 <= i < out@.len() ==> action_on_grid(#[trigger] out@[i]),
        decreases b@.len() - pos,
    {
        let ghost g_note = note@;
        let ghost g_out = out@;
        let ghost g_notes = notes_view(notes@);
        let ghost g_pos = pos as int;
        let ghost g_line = (done + 1) as nat;
        let e = line_end_exec(b, pos);
        let l = slice_subrange(b, pos, e);
        let s = skip_space_exec(l, 0);
        proof {
            assert(l@ == b@.subrange(pos as int, e as int));
        }
        if s >= l.len() {
        } else if l[s] == 35 {
            let text = slice_subrange(l, s + 1, l.len());
            if note.len() == 0 {
                note = slice_to_vec(text);
            } else {
                let ghost old_note = note@;
                note.push(10);
                let mut j: usize = 0;
                while j < text.len()
                    invariant
                        j <= text@.len(),
                        note@ == old_note + seq![10u8] + text@.subrange(0, j as int),
                    decreases text@.len() - j,
                {
                    note.push(text[j]);
                    j = j + 1;
                    assert(note@ =~= old_note + seq![10u8] + text@.subrange(0, j as int));
                }
                assert(text@.subrange(0, text@.len() as int) =~= text@);
            }
        } else {
            match parse_action(l) {
                Err(k) => {
                    return Err(ParseError { at: done + 1, kind: k });
                },
                Ok(a) => {
                    let ghost nv = notes_view(notes@);
                    out.push(a);
                    notes.push(note);
                    note = Vec::new();
                    assert(notes_view(notes@) =~= nv.push(notes@.last()@));
                },
            }
        }
        pos = if e < b.len() {
            e + 1
        } else {
            b.len()
        };
        done = done + 1;
        proof {
            if e as int == b@.len() {
                assert(lines_spec(b@, pos as int, (done + 1) as nat, note@, out@, notes_view(notes@))
                    == lines_spec(b@, e + 1, (done + 1) as nat, note@, out@, notes_view(notes@)));
            }
            assert(lines_spec(b@, g_pos, g_line, g_note, g_out, g_notes) == lines_spec(
                b@,
                e + 1,
                (done + 1) as nat,
                note@,
                out@,
                notes_view(notes@),
            ));
        }
    }
    Ok(Output { out, notes })
}

/// The decimal digits of `v`, as ASCII bytes.
#[verifier::opaque]
pub open spec fn digit_bytes(v: nat) -> Seq<u8>
    decreases v,
{
    if v < 10 {
        seq![(v + 48) as u8]
    } else {
        digit_bytes(v / 10).push((v % 10 + 48) as u8)
    }
}

/// The text line of one commuter.
pub open spec fn commuter_line(cm: Commuter) -> Seq<u8> {
    digit_bytes(cm.r0 as nat) + seq![32u8] + digit_bytes(cm.c0 as nat) + seq![32u8] + digit_bytes(
        cm.r1 as nat,
    ) + seq![32u8] + digit_bytes(cm.c1 as nat) + seq![10u8]
}

/// The text lines of the commuters, in order.
pub open spec fn commuter_lines(cs: Seq<Commuter>) -> Seq<u8>
    decreases cs.len(),
{
    if cs.len() == 0 {
        Seq::empty()
    } else {
        commuter_lines(cs.drop_last()) + commuter_line(cs.last())
    }
}

/// The text form of an instance.
pub open spec fn input_text(input: Input) -> Seq<u8> {
    digit_bytes(input.n as nat) + seq![32u8] + digit_bytes(input.m as nat) + seq![32u8]
        + digit_bytes(input.k as nat) + seq![32u8] + digit_bytes(input.t as nat) + seq![10u8]
        + commuter_lines(input.commuters@)
}

/// All bytes are ASCII.
pub open spec fn ascii_bytes(b: Seq<u8>) -> bool {
    forall|i: int| 0 <= i < b.len() ==> #[trigger] b[i] < 128
}

proof fn lemma_digit_bytes_ascii(v: nat)
    ensures
        ascii_bytes(digit_bytes(v)),
        digit_bytes(v).len() >= 1,
    decreases v,
{
    reveal(digit_bytes);
    if v >= 10 {
        lemma_digit_bytes_ascii(v / 10);
    }
}

/// Appends the decimal digits of `v`.
fn push_decimal(out: &mut Vec<u8>, v: u64)
    ensures
        final(out)@ == old(out)@ + digit_bytes(v as nat),
    decreases v,
{
    if v >= 10 {
        push_decimal(out, v / 10);
    }
    out.push((v % 10 + 48) as u8);
    proof {
        reveal(digit_bytes);
        if v < 10 {
            assert(final(out)@ =~= old(out)@ + digit_bytes(v as nat));
        } else {
            assert(final(out)@ =~= old(out)@ + digit_bytes(v as nat));
        }
    }
}

/// Relies on `String::from_utf8`: ASCII bytes are valid UTF-8, one
/// character per byte, so the conversion cannot fail.
#[verifier::external_body]
fn ascii_string(b: Vec<u8>) -> (r: String)
    requires
        ascii_bytes(b@),
    ensures
        r@ == Seq::new(b@.len(), |i: int| b@[i] as char),
{
    String::from_utf8(b).unwrap()
}

/// Appends the text line of one commuter.
fn push_commuter(out: &mut Vec<u8>, cm: &Commuter)
    ensures
        final(out)@ == old(out)@ + commuter_line(*cm),
{
    push_decimal(out, cm.r0 as u64);
    out.push(32);
    push_decimal(out, cm.c0 as u64);
    out.push(32);
    push_decimal(out, cm.r1 as u64);
    out.push(32);
    push_decimal(out, cm.c1 as u64);
    out.push(10);
    assert(final(out)@ =~= old(out)@ + commuter_line(*cm));
}

/// The text form of an instance, as bytes.
pub fn format_bytes(input: &Input) -> (r: Vec<u8>)
    requires
        input.valid(),
    ensures
        r@ == input_text(*input),
{
    let mut out: Vec<u8> = Vec::new();
    push_decimal(&mut out, input.n as u64);
    out.push(32);
    push_decimal(&mut out, input.m as u64);
    out.push(32);
    push_decimal(&mut out, input.k as u64);
    out.push(32);
    push_decimal(&mut out, input.t as u64);
    out.push(10);
    let ghost head = out@;
    let mut i: usize = 0;
    while i < input.commuters.len()
        invariant
            input.valid(),
            i <= input.commuters@.len(),
            out@ == head + commuter_lines(input.commuters@.subrange(0, i as int)),
        decreases input.commuters@.len() - i,
    {
        let cm = input.commuters[i];
        push_commuter(&mut out, &cm);
        proof {
            let cs = input.commuters@.subrange(0, i + 1);
            assert(cs.drop_last() =~= input.commuters@.subrange(0, i as int));
            assert(out@ =~= head + commuter_lines(cs));
        }
        i = i + 1;
    }
    proof {
        assert(input.commuters@.subrange(0, i as int) =~= input.commuters@);
    }
    out
}

/// The text form of an instance: `n m k t`, then one `r0 c0 r1 c1` line per
/// commuter.
pub fn format_input(input: &Input) -> (r: String)
    requires
        input.valid(),
    ensures
        r@ == Seq::new(input_text(*input).len(), |i: int| input_text(*input)[i] as char),
{
    let b = format_bytes(input);
    proof {
        lemma_text_ascii(*input);
    }
    ascii_string(b)
}

proof fn lemma_lines_ascii(cs: Seq<Commuter>)
    ensures
        ascii_bytes(commuter_lines(cs)),
    decreases cs.len(),
{
    if cs.len() > 0 {
        lemma_lines_ascii(cs.drop_last());
        let cm = cs.last();
        lemma_digit_bytes_ascii(cm.r0 as nat);
        lemma_digit_bytes_ascii(cm.c0 as nat);
        lemma_digit_bytes_ascii(cm.r1 as nat);
        lemma_digit_bytes_ascii(cm.c1 as nat);
    }
}

proof fn lemma_text_ascii(input: Input)
    ensures
        ascii_bytes(input_text(input)),
{
    lemma_lines_ascii(input.commuters@);
    lemma_digit_bytes_ascii(input.n as nat);
    lemma_digit_bytes_ascii(input.m as nat);
    lemma_digit_bytes_ascii(input.k as nat);
    lemma_digit_bytes_ascii(input.t as nat);
}

pub(crate) proof fn lemma_digit_bytes_value(v: nat)
    ensures
        all_digits(digit_bytes(v)),
        digits_value(digit_bytes(v)) == v,
        digit_bytes(v).len() >= 1,
    decreases v,
{
    reveal(digit_bytes);
    if v >= 10 {
        lemma_digit_bytes_value(v / 10);
        let d = digit_bytes(v);
        assert(d.drop_last() =~= digit_bytes(v / 10));
        assert(d.last() == v % 10 + 48);
        assert((v / 10) * 10 + v % 10 == v);
        assert(digits_value(d) == digits_value(d.drop_last()) * 10 + (d.last() - 48));
        assert(digits_value(d.drop_last()) == v / 10);
        assert forall|i: int| 0 <= i < d.len() implies is_digit(#[trigger] d[i]) by {
            if i < d.len() - 1 {
                assert(d[i] == digit_bytes(v / 10)[i]);
            }
        }
    } else {
        let d = digit_bytes(v);
        assert(d.drop_last() =~= Seq::<u8>::empty());
        assert(d.last() == v + 48);
        assert(digits_value(d.drop_last()) == 0);
        assert(digits_value(d) == digits_value(d.drop_last()) * 10 + (d.last() - 48));
    }
}

proof fn lemma_skip_spaces(b: Seq<u8>, q: int, p: int)
    requires
        0 <= q <= p < b.len(),
        forall|i: int| q <= i < p ==> is_space(#[trigger] b[i]),
        !is_space(b[p]),
    ensures
        skip_space(b, q) == p,
    decreases p - q,
{
    if q < p {
        lemma_skip_spaces(b, q + 1, p);
    }
}

proof fn lemma_token_run(b: Seq<u8>, p: int, e: int)
    requires
        0 <= p <= e < b.len(),
        forall|i: int| p <= i < e ==> !is_space(#[trigger] b[i]),
        is_space(b[e]),
    ensures
        token_end(b, p) == e,
    decreases e - p,
{
    if p < e {
        lemma_token_run(b, p + 1, e);
    }
}

/// Reading the token `digit_bytes(v)` that stands after `x` and whatever
/// spaces end `x` from `q` on.
proof fn lemma_read_token(b: Seq<u8>, x: Seq<u8>, v: nat, y: Seq<u8>, q: int, lo: int, hi: int)
    requires
        b == x + digit_bytes(v) + y,
        y.len() > 0,
        is_space(y[0]),
        0 <= q <= x.len(),
        forall|i: int| q <= i < x.len() ==> is_space(#[trigger] x[i]),
        lo <= v <= hi <= 1000000000,
    ensures
        read_spec(b, q, lo, hi) == Ok::<(int, int), ParseErrorKind>(
            (v as int, (x.len() + digit_bytes(v).len()) as int),
        ),
        field_spec(b, q, lo, hi) == Ok::<(int, int), ParseError>(
            (v as int, (x.len() + digit_bytes(v).len()) as int),
        ),
{
    reveal(read_spec);
    let d = digit_bytes(v);
    lemma_digit_bytes_value(v);
    let p = x.len() as int;
    let e = p + d.len();
    assert forall|i: int| q <= i < p implies is_space(#[trigger] b[i]) by {
        assert(b[i] == x[i]);
    }
    assert(b[p] == d[0]);
    assert(is_digit(d[0]));
    lemma_skip_spaces(b, q, p);
    assert forall|i: int| p <= i < e implies !is_space(#[trigger] b[i]) by {
        assert(b[i] == d[i - p]);
        assert(is_digit(d[i - p]));
    }
    assert(b[e] == y[0]);
    lemma_token_run(b, p, e);
    assert(b.subrange(p, e) =~= d);
    assert(d[0] != 45 && d[0] != 43);
    assert(int_of(d) == Some(v as int));
}

proof fn lemma_lines_append(a: Seq<Commuter>, c: Seq<Commuter>)
    ensures
        commuter_lines(a + c) == commuter_lines(a) + commuter_lines(c),
    decreases c.len(),
{
    if c.len() == 0 {
        assert(a + c =~= a);
        assert(commuter_lines(a) + commuter_lines(c) =~= commuter_lines(a));
    } else {
        lemma_lines_append(a, c.drop_last());
        assert((a + c).drop_last() =~= a + c.drop_last());
        assert(commuter_lines(a) + commuter_lines(c) =~= commuter_lines(a) + commuter_lines(c.drop_last())
            + commuter_line(c.last()));
    }
}

#[verifier::rlimit(60)]
proof fn lemma_read_commuter(b: Seq<u8>, x: Seq<u8>, cm: Commuter, y: Seq<u8>)
    requires
        b == x + commuter_line(cm) + y,
        x.len() >= 1,
        is_space(x.last()),
        cm.r0 < 50 && cm.c0 < 50 && cm.r1 < 50 && cm.c1 < 50,
    ensures
        commuter_spec(b, x.len() - 1) == Ok::<(Commuter, int), ParseError>(
            (cm, (x.len() + commuter_line(cm).len() - 1) as int),
        ),
{
    let d0 = digit_bytes(cm.r0 as nat);
    let d1 = digit_bytes(cm.c0 as nat);
    let d2 = digit_bytes(cm.r1 as nat);
    let d3 = digit_bytes(cm.c1 as nat);
    let sp = seq![32u8];
    let nl = seq![10u8];
    let x1 = x + d0 + sp;
    let x2 = x1 + d1 + sp;
    let x3 = x2 + d2 + sp;
    assert(commuter_line(cm) == d0 + sp + d1 + sp + d2 + sp + d3 + nl);
    assert(field_spec(b, x.len() - 1, 0, 49) == Ok::<(int, int), ParseError>(
        (cm.r0 as int, (x.len() + d0.len()) as int),
    )) by {
        assert(b =~= x + d0 + (sp + d1 + sp + d2 + sp + d3 + nl + y));
        lemma_read_token(b, x, cm.r0 as nat, sp + d1 + sp + d2 + sp + d3 + nl + y, x.len() - 1, 0, 49);
    }
    assert(field_spec(b, (x.len() + d0.len()) as int, 0, 49) == Ok::<(int, int), ParseError>(
        (cm.c0 as int, (x1.len() + d1.len()) as int),
    )) by {
        assert(b =~= x1 + d1 + (sp + d2 + sp + d3 + nl + y));
        lemma_read_token(b, x1, cm.c0 as nat, sp + d2 + sp + d3 + nl + y, x1.len() - 1, 0, 49);
    }
    assert(field_spec(b, (x1.len() + d1.len()) as int, 0, 49) == Ok::<(int, int), ParseError>(
        (cm.r1 as int, (x2.len() + d2.len()) as int),
    )) by {
        assert(b =~= x2 + d2 + (sp + d3 + nl + y));
        lemma_read_token(b, x2, cm.r1 as nat, sp + d3 + nl + y, x2.len() - 1, 0, 49);
    }
    assert(field_spec(b, (x2.len() + d2.len()) as int, 0, 49) == Ok::<(int, int), ParseError>(
        (cm.c1 as int, (x3.len() + d3.len()) as int),
    )) by {
        assert(b =~= x3 + d3 + (nl + y));
        lemma_read_token(b, x3, cm.c1 as nat, nl + y, x3.len() - 1, 0, 49);
    }
}

proof fn lemma_lines_end(cs: Seq<Commuter>)
    ensures
        cs.len() > 0 ==> commuter_lines(cs).len() > 0 && commuter_lines(cs).last() == 10,
{
    if cs.len() > 0 {
        let l = commuter_line(cs.last());
        assert(l.last() == 10);
        assert(commuter_lines(cs).last() == l.last());
    }
}

#[verifier::rlimit(50)]
proof fn lemma_read_commuters(b: Seq<u8>, h: Seq<u8>, cs: Seq<Commuter>, k: nat)
    requires
        b == h + commuter_lines(cs),
        h.len() >= 1,
        h.last() == 10,
        k <= cs.len(),
        forall|i: int|
            0 <= i < cs.len() ==> (#[trigger] cs[i]).r0 < 50 && cs[i].c0 < 50 && cs[i].r1 < 50
                && cs[i].c1 < 50,
    ensures
        commuters_spec(b, h.len() - 1, k) == Ok::<(Seq<Commuter>, int), ParseError>(
            (
                cs.subrange(0, k as int),
                (h.len() + commuter_lines(cs.subrange(0, k as int)).len() - 1) as int,
            ),
        ),
    decreases k,
{
    if k == 0 {
        assert(cs.subrange(0, 0) =~= Seq::<Commuter>::empty());
    } else {
        lemma_read_commuters(b, h, cs, (k - 1) as nat);
        let before = cs.subrange(0, k - 1);
        let upto = cs.subrange(0, k as int);
        let after = cs.subrange(k as int, cs.len() as int);
        let x = h + commuter_lines(before);
        assert(upto.drop_last() =~= before);
        assert(upto.last() == cs[k - 1]);
        assert(commuter_lines(upto) == commuter_lines(before) + commuter_line(cs[k - 1]));
        assert(b == x + commuter_line(cs[k - 1]) + commuter_lines(after)) by {
            assert(cs =~= upto + after);
            lemma_lines_append(upto, after);
            assert(b =~= x + commuter_line(cs[k - 1]) + commuter_lines(after));
        }
        assert(is_space(x.last())) by {
            lemma_lines_end(before);
            if before.len() > 0 {
                assert(x.last() == commuter_lines(before).last());
            } else {
                assert(commuter_lines(before) =~= Seq::<u8>::empty());
                assert(x.last() == h.last());
            }
        }
        lemma_read_commuter(b, x, cs[k - 1], commuter_lines(after));
        assert(before.push(cs[k - 1]) =~= upto);
    }
}

/// Parsing the text form of a valid instance gives back its fields, and
/// that text is ASCII, so its UTF-8 encoding is the text itself.
#[verifier::rlimit(60)]
pub proof fn lemma_round_trip(input: Input)
    requires
        input.valid(),
    ensures
        input_spec(input_text(input)) == Ok::<(int, int, int, int, Seq<Commuter>), ParseError>(
            (input.n as int, input.m as int, input.k as int, input.t as int, input.commuters@),
        ),
        encode_utf8(Seq::new(input_text(input).len(), |i: int| input_text(input)[i] as char))
            == input_text(input),
{
    let b = input_text(input);
    let cs = input.commuters@;
    let dn = digit_bytes(input.n as nat);
    let dm = digit_bytes(input.m as nat);
    let dk = digit_bytes(input.k as nat);
    let dt = digit_bytes(input.t as nat);
    let sp = seq![32u8];
    let nl = seq![10u8];
    let lines = commuter_lines(cs);
    let x1 = dn + sp;
    let x2 = x1 + dm + sp;
    let x3 = x2 + dk + sp;
    let h = x3 + dt + nl;
    assert(field_spec(b, 0, 50, 50) == Ok::<(int, int), ParseError>((input.n as int, dn.len() as int))) by {
        assert(b =~= Seq::<u8>::empty() + dn + (sp + dm + sp + dk + sp + dt + nl + lines));
        lemma_read_token(b, Seq::empty(), input.n as nat, sp + dm + sp + dk + sp + dt + nl + lines, 0, 50, 50);
    }
    assert(field_spec(b, dn.len() as int, 1, MAX_COMMUTERS as int) == Ok::<(int, int), ParseError>(
        (input.m as int, (x1.len() + dm.len()) as int),
    )) by {
        assert(b =~= x1 + dm + (sp + dk + sp + dt + nl + lines));
        lemma_read_token(b, x1, input.m as nat, sp + dk + sp + dt + nl + lines, x1.len() - 1, 1, MAX_COMMUTERS as int);
    }
    assert(field_spec(b, (x1.len() + dm.len()) as int, MIN_BUDGET as int, MAX_BUDGET as int) == Ok::<
        (int, int),
        ParseError,
    >((input.k as int, (x2.len() + dk.len()) as int))) by {
        assert(b =~= x2 + dk + (sp + dt + nl + lines));
        lemma_read_token(b, x2, input.k as nat, sp + dt + nl + lines, x2.len() - 1, MIN_BUDGET as int, MAX_BUDGET as int);
    }
    assert(field_spec(b, (x2.len() + dk.len()) as int, 1, MAX_TURNS as int) == Ok::<(int, int), ParseError>(
        (input.t as int, (x3.len() + dt.len()) as int),
    )) by {
        assert(b =~= x3 + dt + (nl + lines));
        lemma_read_token(b, x3, input.t as nat, nl + lines, x3.len() - 1, 1, MAX_TURNS as int);
    }
    assert(b =~= h + lines);
    assert forall|i: int| 0 <= i < cs.len() implies (#[trigger] cs[i]).r0 < 50 && cs[i].c0 < 50
        && cs[i].r1 < 50 && cs[i].c1 < 50 by {
        assert(crate::instance::commuter_on_grid(input.commuters@[i]));
    }
    assert(commuters_spec(b, h.len() - 1, input.m as nat) is Ok && commuters_spec(
        b,
        h.len() - 1,
        input.m as nat,
    )->Ok_0.0 == cs) by {
        lemma_read_commuters(b, h, cs, input.m as nat);
        assert(cs.subrange(0, input.m as int) =~= cs);
    }
    assert(encode_utf8(Seq::new(b.len(), |i: int| b[i] as char)) == b) by {
        lemma_text_ascii(input);
        let chars = Seq::new(b.len(), |i: int| b[i] as char);
        assert(is_ascii_chars(chars));
        is_ascii_chars_encode_utf8(chars);
        assert(encode_utf8(chars) =~= b);
    }
}

} // verus!
