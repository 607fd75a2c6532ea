//! Parsers for USE-flag identifiers and USE dependencies.

use vstd::prelude::*;

use crate::parser_utils::{
    alnum, flag_pred, is_alnum, is_flag_char, lemma_run_end, run_end, scan_flag_chars, ParseError,
};
use crate::useflag::{Negate, Operator, Sign, UseDep, UseFlag};

verus! {

/// A USE-flag identifier starts at `i`.
pub open spec fn flag_at(s: Seq<char>, i: int) -> bool {
    0 <= i < s.len() && is_alnum(s[i])
}

/// The end of the USE-flag identifier whose first character stands at `i`.
pub open spec fn flag_end(s: Seq<char>, i: int) -> int {
    run_end(s, i + 1, flag_pred())
}

/// A `(+)` or `(-)` default-sign marker stands at `i`.
pub open spec fn sign_at(s: Seq<char>, i: int) -> bool {
    &&& 0 <= i
    &&& i + 3 <= s.len()
    &&& s[i] == '('
    &&& (s[i + 1] == '+' || s[i + 1] == '-')
    &&& s[i + 2] == ')'
}

/// Where the USE dependency starting at `i` ends, or `None` when none starts
/// there: optional `-`/`!`, a flag, an optional `(+)`/`(-)`, an optional
/// `=`/`?`, each taken greedily.
pub open spec fn usedep_end(s: Seq<char>, i: int) -> Option<int> {
    let j = if 0 <= i < s.len() && (s[i] == '-' || s[i] == '!') {
        i + 1
    } else {
        i
    };
    if !flag_at(s, j) {
        None
    } else {
        let f = flag_end(s, j);
        let k = if sign_at(s, f) {
            f + 3
        } else {
            f
        };
        let m = if k < s.len() && (s[k] == '=' || s[k] == '?') {
            k + 1
        } else {
            k
        };
        Some(m)
    }
}

/// A USE dependency never ends where it starts, and never past the input.
pub proof fn lemma_usedep_end_bounds(s: Seq<char>, i: int)
    requires
        0 <= i <= s.len(),
        usedep_end(s, i) is Some,
    ensures
        i < usedep_end(s, i).unwrap() <= s.len(),
{
    let j = if 0 <= i < s.len() && (s[i] == '-' || s[i] == '!') {
        i + 1
    } else {
        i
    };
    lemma_run_end(s, j + 1, flag_pred());
}

/// Parses a USE-flag identifier starting at `pos`: an ASCII letter or digit,
/// then the longest run of letters, digits, `+`, `_`, `@`, `-`.
pub(crate) fn useflag_at(s: &str, pos: usize) -> (r: Result<(UseFlag, usize), ParseError>)
    requires
        pos <= s@.len(),
    ensures
        r is Ok <==> flag_at(s@, pos as int),
        r matches Ok((f, n)) ==> {
            &&& n == flag_end(s@, pos as int)
            &&& pos < n <= s@.len()
            &&& f@ == s@.subrange(pos as int, n as int)
            &&& f.wf()
        },
        r matches Err(e) ==> e == ParseError::Fail(pos),
{
    let n0 = s.unicode_len();
    if pos < n0 && alnum(s.get_char(pos)) {
        let e = scan_flag_chars(s, pos + 1);
        proof {
            lemma_run_end(s@, pos as int + 1, flag_pred());
            assert forall|j: int| 0 <= j < e - pos implies is_flag_char(
                #[trigger] s@.subrange(pos as int, e as int)[j],
            ) by {
                assert(s@.subrange(pos as int, e as int)[j] == s@[pos + j]);
            }
        }
        let t = s.substring_char(pos, e);
        Ok((UseFlag(t.to_owned()), e))
    } else {
        Err(ParseError::Fail(pos))
    }
}

/// Parses a USE dependency starting at `pos`.
#[verifier::rlimit(30)]
pub(crate) fn usedep_at(s: &str, pos: usize) -> (r: Result<(UseDep, usize), ParseError>)
    requires
        pos <= s@.len(),
    ensures
        r is Ok <==> usedep_end(s@, pos as int) is Some,
        r matches Ok((d, n)) ==> {
            &&& usedep_end(s@, pos as int) == Some(n as int)
            &&& pos < n <= s@.len()
            &&& d.wf()
            &&& d.spec_str() == s@.subrange(pos as int, n as int)
        },
        r matches Err(e) ==> e == ParseError::Fail(pos),
{
    let n0 = s.unicode_len();
    let (neg, j) = if pos < n0 && s.get_char(pos) == '-' {
        (Some(Negate::Minus), pos + 1)
    } else if pos < n0 && s.get_char(pos) == '!' {
        (Some(Negate::Exclamation), pos + 1)
    } else {
        (None, pos)
    };
    match useflag_at(s, j) {
        Err(_) => Err(ParseError::Fail(pos)),
        Ok((flag, f)) => {
            let (sg, k) = if n0 - f >= 3 && s.get_char(f) == '(' && s.get_char(f + 1) == '+'
                && s.get_char(f + 2) == ')' {
                (Some(Sign::Plus), f + 3)
            } else if n0 - f >= 3 && s.get_char(f) == '(' && s.get_char(f + 1) == '-'
                && s.get_char(f + 2) == ')' {
                (Some(Sign::Minus), f + 3)
            } else {
                (None, f)
            };
            let (op, m) = if k < n0 && s.get_char(k) == '=' {
                (Some(Operator::Equal), k + 1)
            } else if k < n0 && s.get_char(k) == '?' {
                (Some(Operator::Question), k + 1)
            } else {
                (None, k)
            };
            let d = UseDep(neg, flag, sg, op);
            proof {
                assert(usedep_end(s@, pos as int) == Some(m as int));
                assert(d.spec_str() =~= s@.subrange(pos as int, m as int));
            }
            Ok((d, m))
        },
    }
}

/// Parses a USE-flag identifier from the start of `input`, returning the flag
/// and the offset of the first unconsumed character.
pub fn useflag(input: &str) -> (r: Result<(UseFlag, usize), ParseError>)
    ensures
        r is Ok <==> flag_at(input@, 0),
        r matches Ok((f, n)) ==> {
            &&& n == flag_end(input@, 0)
            &&& 0 < n <= input@.len()
            &&& f@ == input@.subrange(0, n as int)
            &&& f.wf()
        },
{
    useflag_at(input, 0)
}

/// Parses a USE dependency from the start of `input`, returning the
/// dependency and the offset of the first unconsumed character.
pub fn usedep(input: &str) -> (r: Result<(UseDep, usize), ParseError>)
    ensures
        r is Ok <==> usedep_end(input@, 0) is Some,
        r matches Ok((d, n)) ==> {
            &&& usedep_end(input@, 0) == Some(n as int)
            &&& 0 < n <= input@.len()
            &&& d.wf()
            &&& d.spec_str() == input@.subrange(0, n as int)
        },
{
    usedep_at(input, 0)
}

} // verus!
