//! Parsers for dependency expressions.
//!
//! An expression is tried as: an atom; a conditional group; a bare USE
//! requirement; a `||` any-of group; a `^^` one-of group; a parenthesized
//! all-of group — in that order, because a bare requirement and a
//! conditional's guard share a prefix. A hard failure inside an atom (past
//! one of its committed delimiters) aborts the whole alternation.
//!
//! The executable parsers are verified against a spec-level mirror of this
//! alternation ([`expr_out`], [`exprs_out`], [`group_out`]) that fixes when
//! parsing succeeds, where it ends, and whether a failure is hard; the
//! returned trees are tied to the input by the shape relations
//! ([`expr_fits`], [`exprs_fits`]), which pin every constructor and tie
//! every leaf to its consumed text as the atom parsers do.

use vstd::prelude::*;

use crate::atom::parsers::{atom_at, atom_committed, atom_end};
use crate::depend::{Conditional, Expr, UseRequirement};
use crate::parser_utils::{lemma_run_end, run_end, scan_space, space_pred, ParseError};
use crate::useflag::parsers::{flag_at, flag_end, useflag_at};

verus! {

/// The outcome of one grammar alternative: success ending at an offset, a
/// soft failure an enclosing alternative may retry, or a hard failure.
pub ghost enum Outcome {
    At(int),
    Fail,
    Cut,
}

// ---------------------------------------------------------------------------
// Spec-level grammar mirror: where parsing ends
// ---------------------------------------------------------------------------

/// Where the expression starting at `pos` ends: an atom; else a conditional
/// (`[!]flag?`, whitespace, group) falling back to the bare USE requirement;
/// else `||` or `^^` before a group; else a bare all-of group.
pub open spec fn expr_out(s: Seq<char>, pos: int) -> Outcome
    decreases s.len() - pos, 1int,
{
    if atom_committed(s, pos) && atom_end(s, pos) is None {
        Outcome::Cut
    } else if atom_end(s, pos) is Some {
        Outcome::At(atom_end(s, pos).unwrap())
    } else {
        let f0 = if 0 <= pos < s.len() && s[pos] == '!' {
            pos + 1
        } else {
            pos
        };
        if flag_at(s, f0) {
            let fe = flag_end(s, f0);
            if fe < s.len() && s[fe] == '?' && run_end(s, fe + 1, space_pred()) > fe + 1 {
                proof {
                    lemma_run_end(s, f0 + 1, crate::parser_utils::flag_pred());
                    lemma_run_end(s, fe + 1, space_pred());
                }
                match group_out(s, run_end(s, fe + 1, space_pred())) {
                    Outcome::At(n) => Outcome::At(n),
                    Outcome::Cut => Outcome::Cut,
                    Outcome::Fail => Outcome::At(fe),
                }
            } else {
                Outcome::At(fe)
            }
        } else if 0 <= pos && pos + 2 <= s.len() && s[pos] == '|' && s[pos + 1] == '|' && run_end(
            s,
            pos + 2,
            space_pred(),
        ) > pos + 2 {
            proof {
                lemma_run_end(s, pos + 2, space_pred());
            }
            match group_out(s, run_end(s, pos + 2, space_pred())) {
                Outcome::At(n) => Outcome::At(n),
                Outcome::Cut => Outcome::Cut,
                Outcome::Fail => group_out(s, pos),
            }
        } else if 0 <= pos && pos + 2 <= s.len() && s[pos] == '^' && s[pos + 1] == '^' && run_end(
            s,
            pos + 2,
            space_pred(),
        ) > pos + 2 {
            proof {
                lemma_run_end(s, pos + 2, space_pred());
            }
            match group_out(s, run_end(s, pos + 2, space_pred())) {
                Outcome::At(n) => Outcome::At(n),
                Outcome::Cut => Outcome::Cut,
                Outcome::Fail => group_out(s, pos),
            }
        } else {
            group_out(s, pos)
        }
    }
}

/// Where the parenthesized group starting at `pos` ends: `(`, whitespace,
/// expressions, whitespace, `)`.
pub open spec fn group_out(s: Seq<char>, pos: int) -> Outcome
    decreases s.len() - pos, 0int,
{
    if !(0 <= pos && pos < s.len() && s[pos] == '(') {
        Outcome::Fail
    } else if run_end(s, pos + 1, space_pred()) == pos + 1 {
        Outcome::Fail
    } else {
        proof {
            lemma_run_end(s, pos + 1, space_pred());
        }
        match exprs_out(s, run_end(s, pos + 1, space_pred())) {
            Outcome::Cut => Outcome::Cut,
            Outcome::Fail => Outcome::Fail,
            Outcome::At(p) => {
                let w2 = run_end(s, p, space_pred());
                if w2 == p {
                    Outcome::Fail
                } else if w2 < s.len() && s[w2] == ')' {
                    Outcome::At(w2 + 1)
                } else {
                    Outcome::Fail
                }
            },
        }
    }
}

/// Where the whitespace-separated expression list starting at `pos` ends.
pub open spec fn exprs_out(s: Seq<char>, pos: int) -> Outcome
    decreases s.len() - pos, 2int,
{
    match expr_out(s, pos) {
        Outcome::Cut => Outcome::Cut,
        Outcome::Fail => Outcome::Fail,
        Outcome::At(p) => if pos < p <= s.len() {
            exprs_more_out(s, p)
        } else {
            Outcome::Fail
        },
    }
}

/// Where the rest of an expression list ends, seen just after an
/// expression: while whitespace and another expression follow, the list
/// extends; a soft failure after the whitespace ends the list before it.
pub open spec fn exprs_more_out(s: Seq<char>, p: int) -> Outcome
    decreases s.len() - p, 0int,
{
    if !(0 <= p <= s.len()) {
        Outcome::Fail
    } else if run_end(s, p, space_pred()) == p {
        Outcome::At(p)
    } else {
        proof {
            lemma_run_end(s, p, space_pred());
        }
        let w = run_end(s, p, space_pred());
        match expr_out(s, w) {
            Outcome::Cut => Outcome::Cut,
            Outcome::Fail => Outcome::At(p),
            Outcome::At(p2) => if w < p2 <= s.len() {
                exprs_more_out(s, p2)
            } else {
                Outcome::Fail
            },
        }
    }
}

// ---------------------------------------------------------------------------
// Spec-level grammar mirror: what the result looks like
// ---------------------------------------------------------------------------

/// The result of the bare-USE-requirement fallback: polarity from the
/// presence of the `!`, flag text from the consumed range.
pub open spec fn req_fits(e: Expr, s: Seq<char>, pos: int, f0: int, fe: int) -> bool {
    e matches Expr::UseRequirement(u) && match u {
        UseRequirement::Negative(f) => f0 == pos + 1 && f.wf() && f@ == s.subrange(f0, fe),
        UseRequirement::Positive(f) => f0 == pos && f.wf() && f@ == s.subrange(f0, fe),
    }
}

/// The expression parsed at `pos` has this shape: the constructor the
/// alternation chooses there, leaves tied to their consumed text, children
/// in input order. Vacuously true where [`expr_out`] does not succeed.
pub open spec fn expr_fits(e: Expr, s: Seq<char>, pos: int) -> bool
    decreases s.len() - pos, 1int,
{
    if atom_committed(s, pos) && atom_end(s, pos) is None {
        true
    } else if atom_end(s, pos) is Some {
        e matches Expr::Atom(a) && a.wf() && a.spec_str() == s.subrange(
            pos,
            atom_end(s, pos).unwrap(),
        )
    } else {
        let f0 = if 0 <= pos < s.len() && s[pos] == '!' {
            pos + 1
        } else {
            pos
        };
        if flag_at(s, f0) {
            let fe = flag_end(s, f0);
            if fe < s.len() && s[fe] == '?' && run_end(s, fe + 1, space_pred()) > fe + 1 {
                proof {
                    lemma_run_end(s, f0 + 1, crate::parser_utils::flag_pred());
                    lemma_run_end(s, fe + 1, space_pred());
                }
                match group_out(s, run_end(s, fe + 1, space_pred())) {
                    Outcome::At(_) => e matches Expr::Conditional(c, es) && (match c {
                        Conditional::Negative(f) => f0 == pos + 1 && f.wf() && f@ == s.subrange(
                            f0,
                            fe,
                        ),
                        Conditional::Positive(f) => f0 == pos && f.wf() && f@ == s.subrange(f0, fe),
                    }) && group_fits(es@, s, run_end(s, fe + 1, space_pred())),
                    Outcome::Cut => true,
                    Outcome::Fail => req_fits(e, s, pos, f0, fe),
                }
            } else {
                req_fits(e, s, pos, f0, fe)
            }
        } else if 0 <= pos && pos + 2 <= s.len() && s[pos] == '|' && s[pos + 1] == '|' && run_end(
            s,
            pos + 2,
            space_pred(),
        ) > pos + 2 {
            proof {
                lemma_run_end(s, pos + 2, space_pred());
            }
            match group_out(s, run_end(s, pos + 2, space_pred())) {
                Outcome::At(_) => e matches Expr::AnyOf(es) && group_fits(
                    es@,
                    s,
                    run_end(s, pos + 2, space_pred()),
                ),
                _ => true,
            }
        } else if 0 <= pos && pos + 2 <= s.len() && s[pos] == '^' && s[pos + 1] == '^' && run_end(
            s,
            pos + 2,
            space_pred(),
        ) > pos + 2 {
            proof {
                lemma_run_end(s, pos + 2, space_pred());
            }
            match group_out(s, run_end(s, pos + 2, space_pred())) {
                Outcome::At(_) => e matches Expr::OneOf(es) && group_fits(
                    es@,
                    s,
                    run_end(s, pos + 2, space_pred()),
                ),
                _ => true,
            }
        } else {
            match group_out(s, pos) {
                Outcome::At(_) => e matches Expr::AllOf(es) && group_fits(es@, s, pos),
                _ => true,
            }
        }
    }
}

/// The children of the group parsed at `pos` have this shape.
pub open spec fn group_fits(es: Seq<Expr>, s: Seq<char>, pos: int) -> bool
    decreases s.len() - pos, 0int,
{
    if !(0 <= pos && pos < s.len() && s[pos] == '(') {
        true
    } else if run_end(s, pos + 1, space_pred()) == pos + 1 {
        true
    } else {
        proof {
            lemma_run_end(s, pos + 1, space_pred());
        }
        exprs_fits(es, s, run_end(s, pos + 1, space_pred()))
    }
}

/// The expression list parsed at `pos` has this shape.
pub open spec fn exprs_fits(es: Seq<Expr>, s: Seq<char>, pos: int) -> bool
    decreases s.len() - pos, 2int,
{
    match expr_out(s, pos) {
        Outcome::At(p) => if pos < p <= s.len() {
            es.len() >= 1 && expr_fits(es[0], s, pos) && exprs_more_fits(es.drop_first(), s, p)
        } else {
            true
        },
        _ => true,
    }
}

/// The rest of an expression list, parsed from just after an expression,
/// has this shape.
pub open spec fn exprs_more_fits(rest: Seq<Expr>, s: Seq<char>, p: int) -> bool
    decreases s.len() - p, 0int,
{
    if !(0 <= p <= s.len()) {
        true
    } else if run_end(s, p, space_pred()) == p {
        rest.len() == 0
    } else {
        proof {
            lemma_run_end(s, p, space_pred());
        }
        let w = run_end(s, p, space_pred());
        match expr_out(s, w) {
            Outcome::Cut => true,
            Outcome::Fail => rest.len() == 0,
            Outcome::At(p2) => if w < p2 <= s.len() {
                rest.len() >= 1 && expr_fits(rest[0], s, w) && exprs_more_fits(
                    rest.drop_first(),
                    s,
                    p2,
                )
            } else {
                true
            },
        }
    }
}

// ---------------------------------------------------------------------------
// Executable parsers
// ---------------------------------------------------------------------------

/// Parses a whitespace-separated list of one or more expressions starting at
/// `pos`. Stops before the first separator not followed by another
/// expression.
#[verifier::rlimit(100)]
#[verifier::spinoff_prover]
pub(crate) fn exprs_at(s: &str, pos: usize) -> (r: Result<(Vec<Expr>, usize), ParseError>)
    requires
        pos <= s@.len(),
    ensures
        (r is Ok) == (exprs_out(s@, pos as int) matches Outcome::At(_)),
        r matches Ok((es, n)) ==> {
            &&& exprs_out(s@, pos as int) == Outcome::At(n as int)
            &&& pos < n <= s@.len()
            &&& es@.len() >= 1
            &&& forall|i: int| 0 <= i < es@.len() ==> (#[trigger] es@[i]).wf()
            &&& exprs_fits(es@, s@, pos as int)
        },
        r matches Err(e) ==> (e matches ParseError::Cut(_) <==> exprs_out(s@, pos as int)
            is Cut),
    decreases s@.len() - pos, 2int,
{
    let n0 = s.unicode_len();
    let (e0, p0) = match expr_at(s, pos) {
        Err(e) => {
            return Err(e);
        },
        Ok(p) => p,
    };
    let mut list: Vec<Expr> = Vec::new();
    list.push(e0);
    let mut p = p0;
    proof {
        assert(exprs_out(s@, pos as int) == exprs_more_out(s@, p as int));
        assert forall|rest: Seq<Expr>|
            #[trigger] exprs_more_fits(rest, s@, p as int) implies exprs_fits(
            list@ + rest,
            s@,
            pos as int,
        ) by {
            assert((list@ + rest).len() >= 1);
            assert((list@ + rest)[0] == e0);
            assert((list@ + rest).drop_first() =~= rest);
        }
    }
    loop
        invariant
            n0 == s@.len(),
            pos < p <= n0,
            list@.len() >= 1,
            forall|i: int| 0 <= i < list@.len() ==> (#[trigger] list@[i]).wf(),
            exprs_out(s@, pos as int) == exprs_more_out(s@, p as int),
            forall|rest: Seq<Expr>| #[trigger] exprs_more_fits(rest, s@, p as int)
                ==> exprs_fits(list@ + rest, s@, pos as int),
        ensures
            pos < p <= n0,
            list@.len() >= 1,
            forall|i: int| 0 <= i < list@.len() ==> (#[trigger] list@[i]).wf(),
            exprs_out(s@, pos as int) == Outcome::At(p as int),
            exprs_fits(list@, s@, pos as int),
        decreases n0 - p,
    {
        let w = scan_space(s, p);
        if w == p {
            proof {
                assert(exprs_more_out(s@, p as int) == Outcome::At(p as int));
                assert(exprs_more_fits(Seq::<Expr>::empty(), s@, p as int));
                assert(list@ + Seq::<Expr>::empty() =~= list@);
            }
            break ;
        }
        match expr_at(s, w) {
            Ok((e2, p2)) => {
                let ghost old_list = list@;
                list.push(e2);
                proof {
                    assert(exprs_more_out(s@, p as int) == exprs_more_out(s@, p2 as int));
                    assert forall|rest: Seq<Expr>|
                        #[trigger] exprs_more_fits(rest, s@, p2 as int) implies exprs_fits(
                        list@ + rest,
                        s@,
                        pos as int,
                    ) by {
                        let rest2 = seq![e2] + rest;
                        assert(rest2.len() >= 1);
                        assert(rest2[0] == e2);
                        assert(rest2.drop_first() =~= rest);
                        assert(exprs_more_fits(rest2, s@, p as int));
                        assert(old_list + rest2 =~= list@ + rest);
                    }
                }
                p = p2;
            },
            Err(ParseError::Cut(x)) => {
                proof {
                    assert(exprs_more_out(s@, p as int) is Cut);
                }
                return Err(ParseError::Cut(x));
            },
            Err(ParseError::Fail(_)) => {
                proof {
                    assert(exprs_more_out(s@, p as int) == Outcome::At(p as int));
                    assert(exprs_more_fits(Seq::<Expr>::empty(), s@, p as int));
                    assert(list@ + Seq::<Expr>::empty() =~= list@);
                }
                break ;
            },
        }
    }
    Ok((list, p))
}

/// Parses a parenthesized group: `(`, whitespace, expressions, whitespace,
/// `)`.
#[verifier::rlimit(100)]
fn group_at(s: &str, pos: usize) -> (r: Result<(Vec<Expr>, usize), ParseError>)
    requires
        pos <= s@.len(),
    ensures
        (r is Ok) == (group_out(s@, pos as int) matches Outcome::At(_)),
        r matches Ok((es, n)) ==> {
            &&& group_out(s@, pos as int) == Outcome::At(n as int)
            &&& pos < n <= s@.len()
            &&& es@.len() >= 1
            &&& forall|i: int| 0 <= i < es@.len() ==> (#[trigger] es@[i]).wf()
            &&& group_fits(es@, s@, pos as int)
        },
        r matches Err(e) ==> (e matches ParseError::Cut(_) <==> group_out(s@, pos as int)
            is Cut),
    decreases s@.len() - pos, 0int,
{
    let n0 = s.unicode_len();
    if !(pos < n0 && s.get_char(pos) == '(') {
        return Err(ParseError::Fail(pos));
    }
    let w = scan_space(s, pos + 1);
    if w == pos + 1 {
        return Err(ParseError::Fail(w));
    }
    let (list, p) = match exprs_at(s, w) {
        Err(e) => {
            return Err(e);
        },
        Ok(x) => x,
    };
    let w2 = scan_space(s, p);
    if w2 == p {
        return Err(ParseError::Fail(p));
    }
    if w2 < n0 && s.get_char(w2) == ')' {
        Ok((list, w2 + 1))
    } else {
        Err(ParseError::Fail(w2))
    }
}

/// Parses one expression starting at `pos`, trying the grammar's
/// alternatives in order.
#[verifier::rlimit(100)]
#[verifier::spinoff_prover]
pub(crate) fn expr_at(s: &str, pos: usize) -> (r: Result<(Expr, usize), ParseError>)
    requires
        pos <= s@.len(),
    ensures
        (r is Ok) == (expr_out(s@, pos as int) matches Outcome::At(_)),
        r matches Ok((e, n)) ==> {
            &&& expr_out(s@, pos as int) == Outcome::At(n as int)
            &&& pos < n <= s@.len()
            &&& e.wf()
            &&& expr_fits(e, s@, pos as int)
        },
        r matches Err(e) ==> (e matches ParseError::Cut(_) <==> expr_out(s@, pos as int) is Cut),
    decreases s@.len() - pos, 1int,
{
    let n0 = s.unicode_len();
    match atom_at(s, pos) {
        Ok((a, n)) => {
            return Ok((Expr::Atom(a), n));
        },
        Err(ParseError::Cut(x)) => {
            return Err(ParseError::Cut(x));
        },
        Err(ParseError::Fail(_)) => (),
    }
    // A conditional and a bare USE requirement share their `[!]flag` prefix;
    // parse it once and decide by what follows.
    let (neg, fpos) = if pos < n0 && s.get_char(pos) == '!' {
        (true, pos + 1)
    } else {
        (false, pos)
    };
    match useflag_at(s, fpos) {
        Ok((flag, fe)) => {
            if fe < n0 && s.get_char(fe) == '?' {
                let w = scan_space(s, fe + 1);
                if w > fe + 1 {
                    match group_at(s, w) {
                        Ok((es, n)) => {
                            let cond = if neg {
                                Conditional::Negative(flag)
                            } else {
                                Conditional::Positive(flag)
                            };
                            return Ok((Expr::Conditional(cond, es), n));
                        },
                        Err(ParseError::Cut(x)) => {
                            return Err(ParseError::Cut(x));
                        },
                        Err(ParseError::Fail(_)) => (),
                    }
                }
            }
            // Fall back to the bare USE requirement.
            let req = if neg {
                UseRequirement::Negative(flag)
            } else {
                UseRequirement::Positive(flag)
            };
            return Ok((Expr::UseRequirement(req), fe));
        },
        Err(_) => (),
    }
    if n0 - pos >= 2 && s.get_char(pos) == '|' && s.get_char(pos + 1) == '|' {
        let w = scan_space(s, pos + 2);
        if w > pos + 2 {
            match group_at(s, w) {
                Ok((es, n)) => {
                    return Ok((Expr::AnyOf(es), n));
                },
                Err(ParseError::Cut(x)) => {
                    return Err(ParseError::Cut(x));
                },
                Err(ParseError::Fail(_)) => (),
            }
        }
    }
    if n0 - pos >= 2 && s.get_char(pos) == '^' && s.get_char(pos + 1) == '^' {
        let w = scan_space(s, pos + 2);
        if w > pos + 2 {
            match group_at(s, w) {
                Ok((es, n)) => {
                    return Ok((Expr::OneOf(es), n));
                },
                Err(ParseError::Cut(x)) => {
                    return Err(ParseError::Cut(x));
                },
                Err(ParseError::Fail(_)) => (),
            }
        }
    }
    match group_at(s, pos) {
        Ok((es, n)) => Ok((Expr::AllOf(es), n)),
        Err(e) => Err(e),
    }
}

/// Parses a whitespace-separated list of one or more dependency expressions
/// from the start of `input`, returning the expressions and the offset of
/// the first unconsumed character.
pub fn exprs(input: &str) -> (r: Result<(Vec<Expr>, usize), ParseError>)
    ensures
        (r is Ok) == (exprs_out(input@, 0) matches Outcome::At(_)),
        r matches Ok((es, n)) ==> {
            &&& exprs_out(input@, 0) == Outcome::At(n as int)
            &&& 0 < n <= input@.len()
            &&& es@.len() >= 1
            &&& forall|i: int| 0 <= i < es@.len() ==> (#[trigger] es@[i]).wf()
            &&& exprs_fits(es@, input@, 0)
        },
{
    exprs_at(input, 0)
}

/// Parses one dependency expression from the start of `input`, returning the
/// expression and the offset of the first unconsumed character.
pub fn expr(input: &str) -> (r: Result<(Expr, usize), ParseError>)
    ensures
        (r is Ok) == (expr_out(input@, 0) matches Outcome::At(_)),
        r matches Ok((e, n)) ==> {
            &&& expr_out(input@, 0) == Outcome::At(n as int)
            &&& 0 < n <= input@.len()
            &&& e.wf()
            &&& expr_fits(e, input@, 0)
        },
{
    expr_at(input, 0)
}

} // verus!
