//! The DIMACS-CNF text format.
//!
//! The format is stupid simple:
//! - `c ...` is a comment;
//! - `p cnf 3 4` announces a problem with 3 variables and 4 clauses;
//! - `34 -2 83 0` is a clause: negated integers are negated literals and
//!   `0` ends the clause.
//!
//! The parser works on the lines of the input as byte strings; the printer
//! renders a solution as text.

use vstd::prelude::*;
use vstd::string::StringExecFns;
use crate::clause::Clause;
use crate::literal::{dimacs_chars, spec_from_dimacs, Literal};

verus! {

/// ASCII lowercasing of one byte.
pub open spec fn lower(b: u8) -> u8 {
    if 65 <= b && b <= 90 {
        (b + 32) as u8
    } else {
        b
    }
}

/// ASCII whitespace: space, tab, line feed, form feed, carriage return.
pub open spec fn is_ws(b: u8) -> bool {
    b == 32 || b == 9 || b == 10 || b == 0x0c || b == 13
}

/// ASCII decimal digit.
pub open spec fn is_digit(b: u8) -> bool {
    48 <= b && b <= 57
}

/// Length of the leading whitespace-free run of `s`.
pub open spec fn token_end(s: Seq<u8>) -> int
    decreases s.len(),
{
    if s.len() == 0 {
        0
    } else if is_ws(s[0]) {
        0
    } else {
        1 + token_end(s.drop_first())
    }
}

proof fn lemma_token_end_bounds(s: Seq<u8>)
    ensures
        0 <= token_end(s) <= s.len(),
    decreases s.len(),
{
    if s.len() > 0 && !is_ws(s[0]) {
        lemma_token_end_bounds(s.drop_first());
    }
}

/// The whitespace-separated tokens of `s`, in order.
pub open spec fn tokens(s: Seq<u8>) -> Seq<Seq<u8>>
    decreases s.len() via tokens_decreases
{
    if s.len() == 0 {
        Seq::<Seq<u8>>::empty()
    } else if is_ws(s[0]) {
        tokens(s.drop_first())
    } else {
        seq![s.take(token_end(s))] + tokens(s.skip(token_end(s)))
    }
}

#[via_fn]
proof fn tokens_decreases(s: Seq<u8>) {
    if s.len() > 0 && !is_ws(s[0]) {
        lemma_token_end_bounds(s.drop_first());
    }
}

/// The integer denoted by a sequence of decimal digits.
pub open spec fn digits_val(t: Seq<u8>) -> int
    decreases t.len(),
{
    if t.len() == 0 {
        0
    } else {
        digits_val(t.drop_last()) * 10 + (t.last() - 48)
    }
}

/// A non-empty run of decimal digits.
pub open spec fn all_digits(t: Seq<u8>) -> bool {
    t.len() > 0 && forall|i: int| 0 <= i < t.len() ==> is_digit(t[i])
}

/// What `str::parse::<i32>` makes of a token: an optional sign, then
/// decimal digits, with the value within the `i32` range.
pub open spec fn spec_parse_i32(t: Seq<u8>) -> Option<i32> {
    let neg = t.len() > 0 && t[0] == 45;
    let mag = if t.len() > 0 && (t[0] == 45 || t[0] == 43) {
        t.drop_first()
    } else {
        t
    };
    if all_digits(mag) {
        let v = if neg {
            -digits_val(mag)
        } else {
            digits_val(mag)
        };
        if -0x8000_0000 <= v && v <= 0x7fff_ffff {
            Some(v as i32)
        } else {
            None
        }
    } else {
        None
    }
}

proof fn lemma_digits_val_nonneg(t: Seq<u8>)
    requires
        forall|i: int| 0 <= i < t.len() ==> is_digit(t[i]),
    ensures
        digits_val(t) >= 0,
    decreases t.len(),
{
    if t.len() > 0 {
        lemma_digits_val_nonneg(t.drop_last());
    }
}

/// Appending digits never shrinks the denoted value.
proof fn lemma_digits_val_mono(t: Seq<u8>, d: int)
    requires
        forall|i: int| 0 <= i < t.len() ==> is_digit(t[i]),
        0 <= d <= t.len(),
    ensures
        digits_val(t) >= digits_val(t.take(d)),
        digits_val(t.take(d)) >= 0,
    decreases t.len() - d,
{
    assert forall|i: int| 0 <= i < t.take(d).len() implies is_digit(t.take(d)[i]) by {}
    lemma_digits_val_nonneg(t.take(d));
    if d == t.len() {
        assert(t.take(d) =~= t);
    } else {
        lemma_digits_val_mono(t, d + 1);
        assert(t.take(d + 1).drop_last() =~= t.take(d));
        assert(t.take(d + 1).last() == t[d]);
        assert(digits_val(t.take(d + 1)) == digits_val(t.take(d)) * 10 + (t[d] - 48));
    }
}

fn lower_byte(b: u8) -> (r: u8)
    ensures
        r == lower(b),
{
    if 65 <= b && b <= 90 {
        b + 32
    } else {
        b
    }
}

fn is_ws_byte(b: u8) -> (r: bool)
    ensures
        r == is_ws(b),
{
    b == 32 || b == 9 || b == 10 || b == 0x0c || b == 13
}

/// `token_end` is exactly the first whitespace position.
proof fn lemma_token_end_at(s: Seq<u8>, k: int)
    requires
        0 <= k <= s.len(),
        forall|j: int| 0 <= j < k ==> !is_ws(s[j]),
        k < s.len() ==> is_ws(s[k]),
    ensures
        token_end(s) == k,
    decreases k,
{
    if k == 0 {
    } else {
        assert forall|j: int| 0 <= j < k - 1 implies !is_ws(s.drop_first()[j]) by {
            assert(s.drop_first()[j] == s[j + 1]);
        }
        assert(k - 1 < s.drop_first().len() ==> s.drop_first()[k - 1] == s[k]);
        lemma_token_end_at(s.drop_first(), k - 1);
    }
}

/// Split a line into its whitespace-separated tokens.
fn split_tokens(line: &Vec<u8>) -> (r: Vec<Vec<u8>>)
    ensures
        r@.map_values(|t: Vec<u8>| t@) == tokens(line@),
{
    let mut toks: Vec<Vec<u8>> = Vec::new();
    let mut i: usize = 0;
    proof {
        assert(line@.skip(0) =~= line@);
    }
    while i < line.len()
        invariant
            i <= line@.len(),
            tokens(line@) == toks@.map_values(|t: Vec<u8>| t@) + tokens(line@.skip(i as int)),
        decreases line@.len() - i,
    {
        let ghost toks_pre = toks@;
        if is_ws_byte(line[i]) {
            proof {
                assert(line@.skip(i as int).drop_first() =~= line@.skip(i + 1));
            }
            i = i + 1;
        } else {
            let start = i;
            let mut tok: Vec<u8> = Vec::new();
            while i < line.len() && !is_ws_byte(line[i])
                invariant
                    start <= i <= line@.len(),
                    tok@ == line@.subrange(start as int, i as int),
                    forall|k: int| start <= k < i ==> !is_ws(line@[k]),
                decreases line@.len() - i,
            {
                tok.push(line[i]);
                proof {
                    assert(tok@ =~= line@.subrange(start as int, i + 1));
                }
                i = i + 1;
            }
            proof {
                let rest = line@.skip(start as int);
                let k = i - start;
                assert forall|j: int| 0 <= j < k implies !is_ws(rest[j]) by {
                    assert(rest[j] == line@[start + j]);
                }
                assert(k < rest.len() ==> rest[k as int] == line@[i as int]);
                lemma_token_end_at(rest, k);
                assert(rest.take(k) =~= line@.subrange(start as int, i as int));
                assert(rest.skip(k) =~= line@.skip(i as int));
                assert(tokens(rest) == seq![tok@] + tokens(line@.skip(i as int)));
            }
            toks.push(tok);
            proof {
                assert(toks@.map_values(|t: Vec<u8>| t@) =~= toks_pre.map_values(
                    |t: Vec<u8>| t@,
                ).push(toks@[toks@.len() - 1]@));
                assert(toks_pre.map_values(|t: Vec<u8>| t@).push(tok@) + tokens(
                    line@.skip(i as int),
                ) =~= toks_pre.map_values(|t: Vec<u8>| t@) + (seq![tok@] + tokens(
                    line@.skip(i as int),
                )));
            }
        }
    }
    proof {
        assert(line@.skip(i as int) =~= Seq::<u8>::empty());
        assert(toks@.map_values(|t: Vec<u8>| t@) + tokens(line@.skip(i as int))
            =~= toks@.map_values(|t: Vec<u8>| t@));
    }
    toks
}

/// Parse a token as `str::parse::<i32>` would: optional sign, decimal
/// digits, value within range.
fn parse_i32(tok: &Vec<u8>) -> (r: Option<i32>)
    ensures
        r == spec_parse_i32(tok@),
{
    let mut i: usize = 0;
    let mut neg = false;
    if tok.len() > 0 && (tok[0] == 45 || tok[0] == 43) {
        neg = tok[0] == 45;
        i = 1;
    }
    let ghost off = i as int;
    let ghost mag = if off == 1 {
        tok@.drop_first()
    } else {
        tok@
    };
    proof {
        assert forall|j: int| 0 <= j < mag.len() implies mag[j] == tok@[j + off] by {}
    }
    if i >= tok.len() {
        // No digits at all.
        return None;
    }
    let mut acc: u64 = 0;
    while i < tok.len()
        invariant
            off <= i as int <= tok@.len(),
            off == (if tok@.len() > 0 && (tok@[0] == 45 || tok@[0] == 43) {
                1int
            } else {
                0int
            }),
            neg == (tok@.len() > 0 && tok@[0] == 45),
            mag == (if off == 1 {
                tok@.drop_first()
            } else {
                tok@
            }),
            mag.len() == tok@.len() - off,
            forall|j: int| 0 <= j < mag.len() ==> mag[j] == tok@[j + off],
            forall|j: int| 0 <= j < i - off ==> is_digit(mag[j]),
            acc == digits_val(mag.take(i - off)),
            acc <= 0x8000_0000,
        decreases tok@.len() - i,
    {
        let b = tok[i];
        if !(48 <= b && b <= 57) {
            // Not a digit: the token is malformed.
            proof {
                assert(mag[i - off] == tok@[i as int]);
                assert(!is_digit(mag[i - off]));
                assert(!all_digits(mag));
                assert(spec_parse_i32(tok@) is None);
            }
            return None;
        }
        proof {
            assert(mag.take(i - off + 1).drop_last() =~= mag.take(i - off));
            assert(mag.take(i - off + 1).last() == mag[i - off]);
        }
        acc = acc * 10 + ((b - 48) as u64);
        if acc > 0x8000_0000 {
            // The magnitude exceeds the i32 range whatever the sign.
            proof {
                assert(mag[i - off] == tok@[i as int]);
                assert(acc == digits_val(mag.take(i - off + 1)));
                if all_digits(mag) {
                    lemma_digits_val_mono(mag, i - off + 1);
                    assert(digits_val(mag) > 0x7fff_ffff);
                }
                assert(spec_parse_i32(tok@) is None);
            }
            return None;
        }
        i = i + 1;
    }
    proof {
        assert(mag.take(i - off) =~= mag);
        assert(all_digits(mag));
    }
    if neg {
        let v: i64 = -(acc as i64);
        Some(v as i32)
    } else {
        if acc > 0x7fff_ffff {
            return None;
        }
        Some(acc as i32)
    }
}


/// A literal added to a clause under construction: an exact duplicate is
/// skipped, anything else is appended.
pub open spec fn add_lit(c: Seq<Literal>, l: Literal) -> Seq<Literal> {
    if c.contains(l) {
        c
    } else {
        c.push(l)
    }
}

/// The lines of an input, each as a byte sequence.
pub open spec fn lines_view(lines: Seq<Vec<u8>>) -> Seq<Seq<u8>> {
    lines.map_values(|l: Vec<u8>| l@)
}

/// The literal sequences of a sequence of clauses.
pub open spec fn clause_seqs(cs: Seq<Clause>) -> Seq<Seq<Literal>> {
    cs.map_values(|c: Clause| c@)
}

/// The parser's running state: whether the problem line was seen, the
/// declared clause count, the clause under construction, and the finished
/// clauses.
pub struct ParseState {
    pub found_problem: bool,
    pub declared: int,
    pub current: Seq<Literal>,
    pub finished: Seq<Seq<Literal>>,
}

pub open spec fn init_state() -> ParseState {
    ParseState {
        found_problem: false,
        declared: 0,
        current: Seq::<Literal>::empty(),
        finished: Seq::<Seq<Literal>>::empty(),
    }
}

/// One clause-body token: a malformed integer rejects the input, a token
/// denoting no literal (`0`) finishes the current clause, and any other
/// integer adds its literal.
pub open spec fn token_step(st: ParseState, tok: Seq<u8>) -> Option<ParseState> {
    match spec_parse_i32(tok) {
        None => None,
        Some(k) => match spec_from_dimacs(k) {
            Some(l) => Some(ParseState { current: add_lit(st.current, l), ..st }),
            None => Some(
                ParseState {
                    current: Seq::<Literal>::empty(),
                    finished: st.finished.push(st.current),
                    ..st
                },
            ),
        },
    }
}

pub open spec fn tokens_fold(st: ParseState, toks: Seq<Seq<u8>>) -> Option<ParseState>
    decreases toks.len(),
{
    if toks.len() == 0 {
        Some(st)
    } else {
        match token_step(st, toks[0]) {
            None => None,
            Some(st2) => tokens_fold(st2, toks.drop_first()),
        }
    }
}

/// A clause line may hold only digits, minus signs and whitespace.
pub open spec fn clause_chars_ok(line: Seq<u8>) -> bool {
    forall|i: int| 0 <= i < line.len() ==> is_digit(line[i]) || line[i] == 45 || is_ws(line[i])
}

/// One input line, after ASCII lowercasing: a comment is skipped, a second
/// problem line or a malformed one rejects the input, and a clause line is
/// folded token by token — unless it holds a stray character or arrives
/// when the declared clause count is already exhausted.
pub open spec fn line_step(st: ParseState, line: Seq<u8>) -> Option<ParseState> {
    let low = line.map_values(|b: u8| lower(b));
    if low.len() > 0 && low[0] == 99 {
        Some(st)
    } else if low.len() > 0 && low[0] == 112 {
        if st.found_problem {
            None
        } else {
            let tks = tokens(low);
            if tks.len() == 4 && tks[0] == seq![112u8] && tks[1] == seq![99u8, 110u8, 102u8]
                && spec_parse_i32(tks[3]) is Some {
                Some(
                    ParseState {
                        found_problem: true,
                        declared: spec_parse_i32(tks[3])->Some_0 as int,
                        ..st
                    },
                )
            } else {
                None
            }
        }
    } else {
        if !clause_chars_ok(low) || st.declared == st.finished.len() {
            None
        } else {
            tokens_fold(st, tokens(low))
        }
    }
}

pub open spec fn lines_fold(st: ParseState, lines: Seq<Seq<u8>>) -> Option<ParseState>
    decreases lines.len(),
{
    if lines.len() == 0 {
        Some(st)
    } else {
        match line_step(st, lines[0]) {
            None => None,
            Some(st2) => lines_fold(st2, lines.drop_first()),
        }
    }
}

/// What the parser makes of a whole input: fold the lines, flush a trailing
/// unterminated clause when exactly one clause is missing, and reject the
/// input when more than that never arrived.
pub open spec fn spec_parse(lines: Seq<Seq<u8>>) -> Option<Seq<Seq<Literal>>> {
    match lines_fold(init_state(), lines) {
        None => None,
        Some(st) => {
            let fin = if st.declared == st.finished.len() + 1 {
                st.finished.push(st.current)
            } else {
                st.finished
            };
            if st.declared > fin.len() {
                None
            } else {
                Some(fin)
            }
        },
    }
}

proof fn lemma_tokens_fold_concat(st: ParseState, a: Seq<Seq<u8>>, b: Seq<Seq<u8>>)
    ensures
        tokens_fold(st, a + b) == (match tokens_fold(st, a) {
            None => None::<ParseState>,
            Some(m) => tokens_fold(m, b),
        }),
    decreases a.len(),
{
    if a.len() == 0 {
        assert(a + b =~= b);
    } else {
        assert((a + b)[0] == a[0]);
        assert((a + b).drop_first() =~= a.drop_first() + b);
        match token_step(st, a[0]) {
            None => {},
            Some(m) => {
                lemma_tokens_fold_concat(m, a.drop_first(), b);
            },
        }
    }
}

proof fn lemma_tokens_fold_step(tt: Seq<Seq<u8>>, ti: int, st0: ParseState, st: ParseState, st2: ParseState)
    requires
        0 <= ti < tt.len(),
        tokens_fold(st0, tt.take(ti)) == Some(st),
        token_step(st, tt[ti]) == Some(st2),
    ensures
        tokens_fold(st0, tt.take(ti + 1)) == Some(st2),
{
    assert(tt.take(ti + 1) =~= tt.take(ti) + seq![tt[ti]]);
    lemma_tokens_fold_concat(st0, tt.take(ti), seq![tt[ti]]);
    assert(seq![tt[ti]][0] == tt[ti]);
    assert(seq![tt[ti]].drop_first() =~= Seq::<Seq<u8>>::empty());
    assert(tokens_fold(st2, Seq::<Seq<u8>>::empty()) == Some(st2));
    assert(tokens_fold(st, seq![tt[ti]]) == Some(st2));
}

proof fn lemma_tokens_fold_none(tt: Seq<Seq<u8>>, ti: int, st0: ParseState, st: ParseState)
    requires
        0 <= ti < tt.len(),
        tokens_fold(st0, tt.take(ti)) == Some(st),
        token_step(st, tt[ti]) is None,
    ensures
        tokens_fold(st0, tt) is None,
{
    assert(tt =~= tt.take(ti) + (seq![tt[ti]] + tt.skip(ti + 1)));
    lemma_tokens_fold_concat(st0, tt.take(ti), seq![tt[ti]] + tt.skip(ti + 1));
    assert((seq![tt[ti]] + tt.skip(ti + 1))[0] == tt[ti]);
}

proof fn lemma_lines_fold_concat(st: ParseState, a: Seq<Seq<u8>>, b: Seq<Seq<u8>>)
    ensures
        lines_fold(st, a + b) == (match lines_fold(st, a) {
            None => None::<ParseState>,
            Some(m) => lines_fold(m, b),
        }),
    decreases a.len(),
{
    if a.len() == 0 {
        assert(a + b =~= b);
    } else {
        assert((a + b)[0] == a[0]);
        assert((a + b).drop_first() =~= a.drop_first() + b);
        match line_step(st, a[0]) {
            None => {},
            Some(m) => {
                lemma_lines_fold_concat(m, a.drop_first(), b);
            },
        }
    }
}

proof fn lemma_parse_step(lv: Seq<Seq<u8>>, li: int, st: ParseState, st2: ParseState)
    requires
        0 <= li < lv.len(),
        lines_fold(init_state(), lv.take(li)) == Some(st),
        line_step(st, lv[li]) == Some(st2),
    ensures
        lines_fold(init_state(), lv.take(li + 1)) == Some(st2),
{
    assert(lv.take(li + 1) =~= lv.take(li) + seq![lv[li]]);
    lemma_lines_fold_concat(init_state(), lv.take(li), seq![lv[li]]);
    assert(seq![lv[li]][0] == lv[li]);
    assert(seq![lv[li]].drop_first() =~= Seq::<Seq<u8>>::empty());
    assert(lines_fold(st2, Seq::<Seq<u8>>::empty()) == Some(st2));
    assert(lines_fold(st, seq![lv[li]]) == Some(st2));
}

proof fn lemma_parse_none(lv: Seq<Seq<u8>>, li: int, st: ParseState)
    requires
        0 <= li < lv.len(),
        lines_fold(init_state(), lv.take(li)) == Some(st),
        line_step(st, lv[li]) is None,
    ensures
        spec_parse(lv) is None,
{
    assert(lv =~= lv.take(li) + (seq![lv[li]] + lv.skip(li + 1)));
    lemma_lines_fold_concat(init_state(), lv.take(li), seq![lv[li]] + lv.skip(li + 1));
    assert((seq![lv[li]] + lv.skip(li + 1))[0] == lv[li]);
}


/// Parse a DIMACS-CNF input, given as its lines. Returns `None` on any
/// malformed input, and otherwise the list of clauses, exactly as the
/// line-by-line specification `spec_parse` describes.
pub fn parse(lines: &Vec<Vec<u8>>) -> (r: Option<Vec<Clause>>)
    ensures
        match r {
            Some(cs) => spec_parse(lines_view(lines@)) == Some(clause_seqs(cs@)),
            None => spec_parse(lines_view(lines@)) is None,
        },
{
    let ghost lv = lines_view(lines@);
    let mut found_problem = false;
    let mut declared: i32 = 0;
    let mut current_clause = Clause::new();
    let mut all_clauses: Vec<Clause> = Vec::new();

    let mut li: usize = 0;
    proof {
        assert(lv.take(0) =~= Seq::<Seq<u8>>::empty());
        assert(clause_seqs(all_clauses@) =~= Seq::<Seq<Literal>>::empty());
    }
    while li < lines.len()
        invariant
            li <= lv.len(),
            lv == lines_view(lines@),
            lines_fold(init_state(), lv.take(li as int)) == Some(
                ParseState {
                    found_problem,
                    declared: declared as int,
                    current: current_clause@,
                    finished: clause_seqs(all_clauses@),
                },
            ),
        decreases lv.len() - li,
    {
        let ghost st_pre = ParseState {
            found_problem,
            declared: declared as int,
            current: current_clause@,
            finished: clause_seqs(all_clauses@),
        };
        let line = &lines[li];
        proof {
            assert(lv[li as int] == line@);
        }

        // ASCII-lowercase the line before matching on it.
        let mut low: Vec<u8> = Vec::new();
        let mut bi: usize = 0;
        while bi < line.len()
            invariant
                bi <= line@.len(),
                low@.len() == bi,
                forall|i: int| 0 <= i < bi ==> low@[i] == lower(line@[i]),
            decreases line@.len() - bi,
        {
            let b = lower_byte(line[bi]);
            low.push(b);
            bi = bi + 1;
        }
        proof {
            assert(low@ =~= line@.map_values(|b: u8| lower(b)));
        }

        if low.len() > 0 && low[0] == 99 {
            // Comment line.
            proof {
                lemma_parse_step(lv, li as int, st_pre, st_pre);
            }
        } else if low.len() > 0 && low[0] == 112 {
            // Problem line: bail out on a second one.
            if found_problem {
                proof {
                    lemma_parse_none(lv, li as int, st_pre);
                }
                return None;
            }
            let toks = split_tokens(&low);
            let ghost tks = tokens(low@);
            let mut ok = toks.len() == 4;
            if ok {
                let t0 = &toks[0];
                ok = t0.len() == 1 && t0[0] == 112;
                proof {
                    assert(tks[0] == toks@[0]@);
                    if ok {
                        assert(tks[0] =~= seq![112u8]);
                    } else {
                        assert(tks[0] != seq![112u8]);
                    }
                }
            }
            if ok {
                let t1 = &toks[1];
                ok = t1.len() == 3 && t1[0] == 99 && t1[1] == 110 && t1[2] == 102;
                proof {
                    assert(tks[1] == toks@[1]@);
                    if ok {
                        assert(tks[1] =~= seq![99u8, 110u8, 102u8]);
                    } else {
                        assert(tks[1] != seq![99u8, 110u8, 102u8]);
                    }
                }
            }
            if !ok {
                proof {
                    lemma_parse_none(lv, li as int, st_pre);
                }
                return None;
            }
            proof {
                assert(tks[3] == toks@[3]@);
            }
            match parse_i32(&toks[3]) {
                None => {
                    proof {
                        lemma_parse_none(lv, li as int, st_pre);
                    }
                    return None;
                },
                Some(n) => {
                    declared = n;
                    found_problem = true;
                    proof {
                        let st2 = ParseState {
                            found_problem: true,
                            declared: n as int,
                            ..st_pre
                        };
                        lemma_parse_step(lv, li as int, st_pre, st2);
                    }
                },
            }
        } else {
            // Clause line: only digits, minus signs and whitespace are
            // allowed, and only while clauses are still expected.
            let mut ci: usize = 0;
            while ci < low.len()
                invariant
                    ci <= low@.len(),
                    forall|i: int|
                        0 <= i < ci ==> is_digit(low@[i]) || low@[i] == 45 || is_ws(low@[i]),
                    low@ == line@.map_values(|b: u8| lower(b)),
                    lv == lines_view(lines@),
                    li < lv.len(),
                    lv[li as int] == line@,
                    lines_fold(init_state(), lv.take(li as int)) == Some(st_pre),
                    st_pre == (ParseState {
                        found_problem,
                        declared: declared as int,
                        current: current_clause@,
                        finished: clause_seqs(all_clauses@),
                    }),
                    !(low@.len() > 0 && (low@[0] == 99 || low@[0] == 112)),
                decreases low@.len() - ci,
            {
                let b = low[ci];
                if !((48 <= b && b <= 57) || b == 45 || is_ws_byte(b)) {
                    proof {
                        assert(!clause_chars_ok(low@));
                        lemma_parse_none(lv, li as int, st_pre);
                    }
                    return None;
                }
                ci = ci + 1;
            }
            if declared >= 0 && (declared as usize) == all_clauses.len() {
                proof {
                    assert(st_pre.declared == st_pre.finished.len());
                    lemma_parse_none(lv, li as int, st_pre);
                }
                return None;
            }
            proof {
                assert(st_pre.declared != st_pre.finished.len());
            }

            let toks = split_tokens(&low);
            let ghost tt = tokens(low@);
            let mut ti: usize = 0;
            proof {
                assert(tt.take(0) =~= Seq::<Seq<u8>>::empty());
            }
            while ti < toks.len()
                invariant
                    ti <= toks@.len(),
                    toks@.map_values(|t: Vec<u8>| t@) == tt,
                    tokens_fold(st_pre, tt.take(ti as int)) == Some(
                        ParseState {
                            found_problem,
                            declared: declared as int,
                            current: current_clause@,
                            finished: clause_seqs(all_clauses@),
                        },
                    ),
                    st_pre.found_problem == found_problem,
                    st_pre.declared == declared as int,
                    lv == lines_view(lines@),
                    li < lv.len(),
                    lv[li as int] == line@,
                    low@ == line@.map_values(|b: u8| lower(b)),
                    tt == tokens(low@),
                    clause_chars_ok(low@),
                    !(low@.len() > 0 && (low@[0] == 99 || low@[0] == 112)),
                    lines_fold(init_state(), lv.take(li as int)) == Some(st_pre),
                    st_pre.declared != st_pre.finished.len(),
                decreases toks@.len() - ti,
            {
                let ghost st_tok = ParseState {
                    found_problem,
                    declared: declared as int,
                    current: current_clause@,
                    finished: clause_seqs(all_clauses@),
                };
                proof {
                    assert(tt[ti as int] == toks@[ti as int]@);
                }
                match parse_i32(&toks[ti]) {
                    None => {
                        proof {
                            lemma_tokens_fold_none(tt, ti as int, st_pre, st_tok);
                            lemma_parse_none(lv, li as int, st_pre);
                        }
                        return None;
                    },
                    Some(k) => {
                        match Literal::from_dimacs(k) {
                            Some(l) => {
                                current_clause.add_literal(l);
                                proof {
                                    let st2 = ParseState {
                                        current: add_lit(st_tok.current, l),
                                        ..st_tok
                                    };
                                    lemma_tokens_fold_step(tt, ti as int, st_pre, st_tok, st2);
                                }
                            },
                            None => {
                                // `0` (or an out-of-range negation) ends the
                                // clause: bank it and start a new one.
                                let ghost finished_pre = clause_seqs(all_clauses@);
                                all_clauses.push(current_clause);
                                current_clause = Clause::new();
                                proof {
                                    assert(clause_seqs(all_clauses@) =~= finished_pre.push(
                                        st_tok.current,
                                    ));
                                    let st2 = ParseState {
                                        current: Seq::<Literal>::empty(),
                                        finished: finished_pre.push(st_tok.current),
                                        ..st_tok
                                    };
                                    lemma_tokens_fold_step(tt, ti as int, st_pre, st_tok, st2);
                                }
                            },
                        }
                    },
                }
                ti = ti + 1;
            }
            proof {
                assert(tt.take(toks@.len() as int) =~= tt);
                let st2 = ParseState {
                    found_problem,
                    declared: declared as int,
                    current: current_clause@,
                    finished: clause_seqs(all_clauses@),
                };
                assert(line_step(st_pre, lv[li as int]) == Some(st2));
                lemma_parse_step(lv, li as int, st_pre, st2);
            }
        }
        li = li + 1;
    }

    proof {
        assert(lv.take(lv.len() as int) =~= lv);
    }

    // If exactly one declared clause never saw its terminating `0`, flush
    // the clause under construction as the last one.
    let ghost st_end = ParseState {
        found_problem,
        declared: declared as int,
        current: current_clause@,
        finished: clause_seqs(all_clauses@),
    };
    let ghost finished_pre = clause_seqs(all_clauses@);
    if declared >= 1 && ((declared - 1) as usize) == all_clauses.len() {
        all_clauses.push(current_clause);
        proof {
            assert(clause_seqs(all_clauses@) =~= finished_pre.push(st_end.current));
        }
    } else {
        proof {
            assert(st_end.declared != st_end.finished.len() + 1);
        }
    }

    // Any larger deficit rejects the input.
    if declared > 0 && (declared as usize) > all_clauses.len() {
        return None;
    }
    proof {
        assert(declared as int <= clause_seqs(all_clauses@).len());
    }
    Some(all_clauses)
}


/// The rendered trail: each literal as a signed DIMACS integer followed by
/// one space.
pub open spec fn lits_chars(soln: Seq<Literal>) -> Seq<char>
    decreases soln.len(),
{
    if soln.len() == 0 {
        Seq::<char>::empty()
    } else {
        dimacs_chars(soln[0]) + seq![' '] + lits_chars(soln.drop_first())
    }
}

/// The whole rendered solution: the `s` status line, and for a satisfiable
/// problem the `v` line with the trail and a terminating `0`.
pub open spec fn solution_chars(soln: Option<Seq<Literal>>) -> Seq<char> {
    match soln {
        None => "s UNSATISFIABLE\n"@,
        Some(s) => "s SATISFIABLE\nv "@ + lits_chars(s) + "0\n"@,
    }
}

proof fn lemma_lits_chars_snoc(s: Seq<Literal>, l: Literal)
    ensures
        lits_chars(s.push(l)) == lits_chars(s) + (dimacs_chars(l) + seq![' ']),
    decreases s.len(),
{
    if s.len() == 0 {
        assert(s.push(l)[0] == l);
        assert(s.push(l).drop_first() =~= Seq::<Literal>::empty());
        assert(lits_chars(Seq::<Literal>::empty()) == Seq::<char>::empty());
        assert(lits_chars(s.push(l)) =~= lits_chars(s) + (dimacs_chars(l) + seq![' ']));
    } else {
        assert(s.push(l)[0] == s[0]);
        assert(s.push(l).drop_first() =~= s.drop_first().push(l));
        lemma_lits_chars_snoc(s.drop_first(), l);
        let a = dimacs_chars(s[0]) + seq![' '];
        let b = lits_chars(s.drop_first());
        let c = dimacs_chars(l) + seq![' '];
        assert(lits_chars(s.push(l)) == a + (b + c));
        assert(a + (b + c) =~= (a + b) + c);
        assert(lits_chars(s) == a + b);
    }
}

/// Render a solution in DIMACS form: `s UNSATISFIABLE` alone, or
/// `s SATISFIABLE` followed by a `v` line listing the trail.
pub fn print(soln: Option<Vec<Literal>>) -> (r: String)
    ensures
        soln is None ==> r@ == solution_chars(None),
        soln matches Some(v) ==> r@ == solution_chars(Some(v@)),
{
    match soln {
        None => "s UNSATISFIABLE\n".to_owned(),
        Some(v) => {
            let mut out = "s SATISFIABLE\nv ".to_owned();
            proof {
                assert(lits_chars(v@.take(0)) =~= Seq::<char>::empty());
                assert(out@ =~= "s SATISFIABLE\nv "@ + lits_chars(v@.take(0)));
            }
            let mut i: usize = 0;
            while i < v.len()
                invariant
                    i <= v@.len(),
                    out@ == "s SATISFIABLE\nv "@ + lits_chars(v@.take(i as int)),
                decreases v@.len() - i,
            {
                let d = v[i].to_dimacs();
                out.append(d.as_str());
                out.append(" ");
                proof {
                    reveal_strlit(" ");
                    assert(" "@ =~= seq![' ']);
                    assert(v@.take(i + 1) =~= v@.take(i as int).push(v@[i as int]));
                    lemma_lits_chars_snoc(v@.take(i as int), v@[i as int]);
                    assert(out@ =~= "s SATISFIABLE\nv "@ + lits_chars(v@.take(i + 1)));
                }
                i = i + 1;
            }
            out.append("0\n");
            proof {
                assert(v@.take(v@.len() as int) =~= v@);
                assert(out@ =~= "s SATISFIABLE\nv "@ + lits_chars(v@) + "0\n"@);
            }
            out
        },
    }
}

} // verus!
