use vstd::prelude::*;
use crate::model::{Lit, SolverError};

verus! {

/// Where the scanner stands within a line.
#[derive(Clone, Copy, Debug, PartialEq, Eq, Structural)]
pub enum LineMode {
    /// At the first byte of a line.
    Start,
    /// Inside a line of literals.
    Body,
    /// Ignoring the rest of the line (a header, a comment, or what follows a terminator).
    Skip,
}

/// The scanner's state after a prefix of the input.
pub struct Scan {
    /// Clauses completed so far.
    pub clauses: Seq<Seq<Lit>>,
    /// Literals of the clause being read.
    pub clause: Seq<Lit>,
    pub mode: LineMode,
    /// Inside a token.
    pub in_tok: bool,
    /// The token began with `-`.
    pub neg: bool,
    /// The token has at least one digit.
    pub has_digit: bool,
    /// The magnitude read so far.
    pub val: int,
    /// The input is malformed.
    pub failed: bool,
}

pub const MAX_VAR: u32 = 32767;

pub open spec fn is_blank(b: u8) -> bool {
    b == 32 || b == 9 || b == 11 || b == 12 || b == 13
}

pub open spec fn scan_init() -> Scan {
    Scan {
        clauses: Seq::empty(),
        clause: Seq::empty(),
        mode: LineMode::Start,
        in_tok: false,
        neg: false,
        has_digit: false,
        val: 0,
        failed: false,
    }
}

pub open spec fn fail(s: Scan) -> Scan {
    Scan { failed: true, ..s }
}

/// Ends the current token: a `0` ends the clause (which must not be empty) and
/// the line; any other number is a literal of the clause.
pub open spec fn end_token(s: Scan) -> Scan {
    if !s.in_tok {
        s
    } else if !s.has_digit {
        fail(s)
    } else if s.val == 0 {
        if s.clause.len() == 0 {
            fail(s)
        } else {
            Scan { clauses: s.clauses.push(s.clause), clause: Seq::empty(), mode: LineMode::Skip, in_tok: false, ..s }
        }
    } else {
        Scan { clause: s.clause.push((s.val as u16, !s.neg)), in_tok: false, ..s }
    }
}

/// Ends a line: a clause left without its terminator is malformed.
pub open spec fn end_line(s: Scan) -> Scan {
    if s.failed {
        s
    } else if s.clause.len() > 0 {
        fail(s)
    } else {
        Scan { mode: LineMode::Start, ..s }
    }
}

pub open spec fn add_digit(s: Scan, d: int) -> Scan {
    if s.in_tok {
        if s.val * 10 + d > MAX_VAR {
            fail(s)
        } else {
            Scan { val: s.val * 10 + d, has_digit: true, ..s }
        }
    } else {
        Scan { in_tok: true, neg: false, has_digit: true, val: d, ..s }
    }
}

/// One byte of input.
pub open spec fn step(s: Scan, b: u8) -> Scan {
    if s.failed {
        s
    } else if s.mode == LineMode::Skip {
        if b == 10 {
            Scan { mode: LineMode::Start, ..s }
        } else {
            s
        }
    } else if s.mode == LineMode::Start && (b == 112 || b == 99) {
        Scan { mode: LineMode::Skip, ..s }
    } else {
        let s0 = Scan { mode: LineMode::Body, ..s };
        if b == 10 {
            end_line(end_token(s0))
        } else if is_blank(b) {
            end_token(s0)
        } else if 48 <= b <= 57 {
            add_digit(s0, b - 48)
        } else if b == 45 || b == 43 {
            if s0.in_tok {
                fail(s0)
            } else {
                Scan { in_tok: true, neg: b == 45, has_digit: false, val: 0, ..s0 }
            }
        } else {
            fail(s0)
        }
    }
}

pub open spec fn scan(t: Seq<u8>) -> Scan
    decreases t.len(),
{
    if t.len() == 0 {
        scan_init()
    } else {
        step(scan(t.drop_last()), t.last())
    }
}

/// The end of input ends the last token and line.
pub open spec fn finish(s: Scan) -> Scan {
    if s.failed || s.mode == LineMode::Skip {
        s
    } else {
        end_line(end_token(s))
    }
}

/// The clauses of a DIMACS text, or `None` when it is malformed. Lines that
/// begin with `p` or `c` are ignored; every other line is empty or holds
/// whitespace-separated signed integers of magnitude at most 32767 ending in
/// a `0` (what follows the `0` on that line is ignored), and the clause before
/// the `0` must not be empty.
pub open spec fn parse_spec(t: Seq<u8>) -> Option<Seq<Seq<Lit>>> {
    let s = finish(scan(t));
    if s.failed {
        None
    } else {
        Some(s.clauses)
    }
}

pub open spec fn views(v: Seq<Vec<Lit>>) -> Seq<Seq<Lit>> {
    v.map_values(|c: Vec<Lit>| c@)
}

pub open spec fn lits_ok(c: Seq<Lit>) -> bool {
    forall|j: int| 0 <= j < c.len() ==> 1 <= (#[trigger] c[j]).0 <= MAX_VAR
}

proof fn lemma_failed_stays(t: Seq<u8>, i: int)
    requires
        0 <= i <= t.len(),
        scan(t.take(i)).failed,
    ensures
        scan(t).failed,
    decreases t.len() - i,
{
    if i == t.len() {
        assert(t.take(i) =~= t);
    } else {
        assert(t.take(i + 1).drop_last() =~= t.take(i));
        lemma_failed_stays(t, i + 1);
    }
}

/// Reads the clauses of a DIMACS text (see `parse_spec`).
pub fn parse_dimacs(text: &[u8]) -> (r: Result<Vec<Vec<Lit>>, SolverError>)
    ensures
        match parse_spec(text@) {
            None => r == Err::<Vec<Vec<Lit>>, SolverError>(SolverError::MalformedInput),
            Some(cs) => r.is_ok() && views(r->Ok_0@) == cs,
        },
        r.is_ok() ==> forall|c: int| 0 <= c < r->Ok_0@.len() ==> (#[trigger] r->Ok_0@[c])@.len() > 0 && lits_ok(r->Ok_0@[c]@),
{
    let mut clauses: Vec<Vec<Lit>> = Vec::new();
    let mut clause: Vec<Lit> = Vec::new();
    let mut mode = LineMode::Start;
    let mut in_tok = false;
    let mut neg = false;
    let mut has_digit = false;
    let mut val: u32 = 0;
    let mut i: usize = 0;
    proof {
        assert(text@.take(0) =~= Seq::<u8>::empty());
        assert(views(clauses@) =~= Seq::<Seq<Lit>>::empty());
    }
    while i < text.len()
        invariant
            i <= text@.len(),
            val <= MAX_VAR,
            scan(text@.take(i as int)) == (Scan {
                clauses: views(clauses@),
                clause: clause@,
                mode,
                in_tok,
                neg,
                has_digit,
                val: val as int,
                failed: false,
            }),
            forall|c: int| 0 <= c < clauses@.len() ==> (#[trigger] clauses@[c])@.len() > 0 && lits_ok(clauses@[c]@),
            lits_ok(clause@),
        decreases text@.len() - i,
    {
        let b = text[i];
        let ghost s = scan(text@.take(i as int));
        proof {
            assert(text@.take(i + 1).drop_last() =~= text@.take(i as int));
            assert(text@.take(i + 1).last() == b);
        }
        if mode == LineMode::Skip {
            if b == 10 {
                mode = LineMode::Start;
            }
        } else if mode == LineMode::Start && (b == 112 || b == 99) {
            mode = LineMode::Skip;
        } else {
            mode = LineMode::Body;
            if b == 10 || (b == 32 || b == 9 || b == 11 || b == 12 || b == 13) {
                if in_tok {
                    if !has_digit {
                        proof {
                            lemma_failed_stays(text@, i + 1);
                        }
                        return Err(SolverError::MalformedInput);
                    }
                    if val == 0 {
                        if clause.len() == 0 {
                            proof {
                                lemma_failed_stays(text@, i + 1);
                            }
                            return Err(SolverError::MalformedInput);
                        }
                        let ghost old_clauses = clauses@;
                        clauses.push(clause);
                        clause = Vec::new();
                        mode = LineMode::Skip;
                        proof {
                            assert(views(clauses@) =~= views(old_clauses).push(s.clause));
                        }
                    } else {
                        clause.push((val as u16, !neg));
                    }
                    in_tok = false;
                }
                if b == 10 {
                    if clause.len() > 0 {
                        proof {
                            lemma_failed_stays(text@, i + 1);
                        }
                        return Err(SolverError::MalformedInput);
                    }
                    mode = LineMode::Start;
                }
            } else if 48 <= b && b <= 57 {
                let d = (b - 48) as u32;
                if in_tok {
                    if val * 10 + d > MAX_VAR {
                        proof {
                            lemma_failed_stays(text@, i + 1);
                        }
                        return Err(SolverError::MalformedInput);
                    }
                    val = val * 10 + d;
                } else {
                    in_tok = true;
                    neg = false;
                    val = d;
                }
                has_digit = true;
            } else if b == 45 || b == 43 {
                if in_tok {
                    proof {
                        lemma_failed_stays(text@, i + 1);
                    }
                    return Err(SolverError::MalformedInput);
                }
                in_tok = true;
                neg = b == 45;
                has_digit = false;
                val = 0;
            } else {
                proof {
                    lemma_failed_stays(text@, i + 1);
                }
                return Err(SolverError::MalformedInput);
            }
        }
        i += 1;
    }
    proof {
        assert(text@.take(text@.len() as int) =~= text@);
    }
    if mode != LineMode::Skip {
        if in_tok {
            if !has_digit {
                return Err(SolverError::MalformedInput);
            }
            if val == 0 {
                if clause.len() == 0 {
                    return Err(SolverError::MalformedInput);
                }
                let ghost old_clauses = clauses@;
                let ghost c0 = clause@;
                clauses.push(clause);
                clause = Vec::new();
                proof {
                    assert(views(clauses@) =~= views(old_clauses).push(c0));
                }
            } else {
                clause.push((val as u16, !neg));
            }
        }
        if clause.len() > 0 {
            return Err(SolverError::MalformedInput);
        }
    }
    Ok(clauses)
}

} // verus!
