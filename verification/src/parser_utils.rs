//! Shared parsing infrastructure: the error type, character classes, and
//! maximal-munch run scanners that the grammar modules build on.
//!
//! Every parser in this crate works on a `&str` together with a character
//! offset, and reports how far it consumed as a new character offset.

use vstd::prelude::*;

verus! {

/// A parse failure, tagged with the character offset at which it occurred.
#[derive(Clone, Copy, Debug, PartialEq, Eq)]
pub enum ParseError {
    /// The input does not match the grammar at the given offset; an enclosing
    /// alternative may still try another branch.
    Fail(usize),
    /// The input does not match the grammar past a committed delimiter; no
    /// enclosing alternative may reinterpret the input.
    Cut(usize),
}

// ---------------------------------------------------------------------------
// Character classes
// ---------------------------------------------------------------------------

/// An ASCII decimal digit.
pub open spec fn is_digit(c: char) -> bool {
    '0' <= c && c <= '9'
}

/// An ASCII lowercase letter.
pub open spec fn is_lower(c: char) -> bool {
    'a' <= c && c <= 'z'
}

/// An ASCII uppercase letter.
pub open spec fn is_upper(c: char) -> bool {
    'A' <= c && c <= 'Z'
}

/// An ASCII letter or digit.
pub open spec fn is_alnum(c: char) -> bool {
    is_digit(c) || is_lower(c) || is_upper(c)
}

/// A character that may start a category, name, or slot identifier.
pub open spec fn is_word_start(c: char) -> bool {
    is_alnum(c) || c == '_'
}

/// A character that may continue a category or slot identifier.
pub open spec fn is_word_char(c: char) -> bool {
    is_alnum(c) || c == '_' || c == '-' || c == '.' || c == '+'
}

/// A character that may continue a package name.
pub open spec fn is_name_char(c: char) -> bool {
    is_alnum(c) || c == '-' || c == '_' || c == '+'
}

/// A character that may continue a USE-flag identifier.
pub open spec fn is_flag_char(c: char) -> bool {
    is_alnum(c) || c == '+' || c == '_' || c == '@' || c == '-'
}

/// An ASCII whitespace character.
pub open spec fn is_space(c: char) -> bool {
    c == ' ' || c == '\t' || c == '\n' || c == '\x0c' || c == '\r'
}

/// An ASCII hexadecimal digit, either case.
pub open spec fn is_hex(c: char) -> bool {
    is_digit(c) || ('a' <= c && c <= 'f') || ('A' <= c && c <= 'F')
}

pub(crate) fn digit(c: char) -> (r: bool)
    ensures
        r == is_digit(c),
{
    '0' <= c && c <= '9'
}

pub(crate) fn lower(c: char) -> (r: bool)
    ensures
        r == is_lower(c),
{
    'a' <= c && c <= 'z'
}

pub(crate) fn alnum(c: char) -> (r: bool)
    ensures
        r == is_alnum(c),
{
    ('0' <= c && c <= '9') || ('a' <= c && c <= 'z') || ('A' <= c && c <= 'Z')
}

pub(crate) fn word_start(c: char) -> (r: bool)
    ensures
        r == is_word_start(c),
{
    alnum(c) || c == '_'
}

pub(crate) fn word_char(c: char) -> (r: bool)
    ensures
        r == is_word_char(c),
{
    alnum(c) || c == '_' || c == '-' || c == '.' || c == '+'
}

pub(crate) fn name_char(c: char) -> (r: bool)
    ensures
        r == is_name_char(c),
{
    alnum(c) || c == '-' || c == '_' || c == '+'
}

pub(crate) fn flag_char(c: char) -> (r: bool)
    ensures
        r == is_flag_char(c),
{
    alnum(c) || c == '+' || c == '_' || c == '@' || c == '-'
}

pub(crate) fn space(c: char) -> (r: bool)
    ensures
        r == is_space(c),
{
    c == ' ' || c == '\t' || c == '\n' || c == '\x0c' || c == '\r'
}

pub(crate) fn hex(c: char) -> (r: bool)
    ensures
        r == is_hex(c),
{
    digit(c) || ('a' <= c && c <= 'f') || ('A' <= c && c <= 'F')
}

// ---------------------------------------------------------------------------
// Maximal-munch runs
// ---------------------------------------------------------------------------

/// The end of the longest run of characters satisfying `p` that starts at `i`:
/// the first offset at or after `i` whose character fails `p`, or the end of
/// the input.
pub open spec fn run_end(s: Seq<char>, i: int, p: spec_fn(char) -> bool) -> int
    decreases s.len() - i,
{
    if i < 0 || i >= s.len() || !p(s[i]) {
        i
    } else {
        run_end(s, i + 1, p)
    }
}

/// The run starting at `i` ends no earlier than `i`, no later than the input,
/// every character inside it satisfies `p`, and the character just past it
/// (if any) does not.
pub proof fn lemma_run_end(s: Seq<char>, i: int, p: spec_fn(char) -> bool)
    requires
        0 <= i <= s.len(),
    ensures
        i <= run_end(s, i, p) <= s.len(),
        forall|j: int| i <= j < run_end(s, i, p) ==> p(#[trigger] s[j]),
        run_end(s, i, p) == s.len() || !p(s[run_end(s, i, p)]),
    decreases s.len() - i,
{
    if i < s.len() && p(s[i]) {
        lemma_run_end(s, i + 1, p);
    }
}

/// The digit character class, as a function value for `run_end`.
pub open spec fn digit_pred() -> spec_fn(char) -> bool {
    |c: char| is_digit(c)
}

/// The category/slot identifier character class, as a function value.
pub open spec fn word_pred() -> spec_fn(char) -> bool {
    |c: char| is_word_char(c)
}

/// The USE-flag identifier character class, as a function value.
pub open spec fn flag_pred() -> spec_fn(char) -> bool {
    |c: char| is_flag_char(c)
}

/// The ASCII whitespace character class, as a function value.
pub open spec fn space_pred() -> spec_fn(char) -> bool {
    |c: char| is_space(c)
}

/// Scans the longest run of decimal digits starting at `pos`.
pub(crate) fn scan_digits(s: &str, pos: usize) -> (r: usize)
    requires
        pos <= s@.len(),
    ensures
        r == run_end(s@, pos as int, digit_pred()),
        pos <= r <= s@.len(),
{
    let n = s.unicode_len();
    let mut i = pos;
    while i < n && digit(s.get_char(i))
        invariant
            pos <= i <= n,
            n == s@.len(),
            run_end(s@, pos as int, digit_pred()) == run_end(s@, i as int, digit_pred()),
        decreases n - i,
    {
        proof {
            assert(run_end(s@, i as int, digit_pred()) == run_end(s@, i as int + 1, digit_pred()));
        }
        i = i + 1;
    }
    i
}

/// Scans the longest run of category/slot identifier characters starting at
/// `pos`.
pub(crate) fn scan_word_chars(s: &str, pos: usize) -> (r: usize)
    requires
        pos <= s@.len(),
    ensures
        r == run_end(s@, pos as int, word_pred()),
        pos <= r <= s@.len(),
{
    let n = s.unicode_len();
    let mut i = pos;
    while i < n && word_char(s.get_char(i))
        invariant
            pos <= i <= n,
            n == s@.len(),
            run_end(s@, pos as int, word_pred()) == run_end(s@, i as int, word_pred()),
        decreases n - i,
    {
        proof {
            assert(run_end(s@, i as int, word_pred()) == run_end(s@, i as int + 1, word_pred()));
        }
        i = i + 1;
    }
    i
}

/// Scans the longest run of USE-flag identifier characters starting at `pos`.
pub(crate) fn scan_flag_chars(s: &str, pos: usize) -> (r: usize)
    requires
        pos <= s@.len(),
    ensures
        r == run_end(s@, pos as int, flag_pred()),
        pos <= r <= s@.len(),
{
    let n = s.unicode_len();
    let mut i = pos;
    while i < n && flag_char(s.get_char(i))
        invariant
            pos <= i <= n,
            n == s@.len(),
            run_end(s@, pos as int, flag_pred()) == run_end(s@, i as int, flag_pred()),
        decreases n - i,
    {
        proof {
            assert(run_end(s@, i as int, flag_pred()) == run_end(s@, i as int + 1, flag_pred()));
        }
        i = i + 1;
    }
    i
}

/// Scans the longest run of ASCII whitespace starting at `pos`.
pub(crate) fn scan_space(s: &str, pos: usize) -> (r: usize)
    requires
        pos <= s@.len(),
    ensures
        r == run_end(s@, pos as int, space_pred()),
        pos <= r <= s@.len(),
{
    let n = s.unicode_len();
    let mut i = pos;
    while i < n && space(s.get_char(i))
        invariant
            pos <= i <= n,
            n == s@.len(),
            run_end(s@, pos as int, space_pred()) == run_end(s@, i as int, space_pred()),
        decreases n - i,
    {
        proof {
            assert(run_end(s@, i as int, space_pred()) == run_end(s@, i as int + 1, space_pred()));
        }
        i = i + 1;
    }
    i
}

/// A run of `p`-characters from `i` through `e`, with `e` at the end of the
/// input or at a non-`p` character, is exactly the maximal run from `i`.
pub proof fn lemma_run_end_is(s: Seq<char>, i: int, e: int, p: spec_fn(char) -> bool)
    requires
        0 <= i <= e <= s.len(),
        forall|j: int| i <= j < e ==> p(#[trigger] s[j]),
        e == s.len() || !p(s[e]),
    ensures
        run_end(s, i, p) == e,
    decreases e - i,
{
    if i < e {
        lemma_run_end_is(s, i + 1, e, p);
    }
}

/// Two maximal runs of `p`-characters reading the same text, each followed
/// by a non-`p` character (or nothing), are the same run with the same
/// remainder.
pub proof fn lemma_run_boundary(
    a: Seq<char>,
    x: Seq<char>,
    b: Seq<char>,
    y: Seq<char>,
    p: spec_fn(char) -> bool,
)
    requires
        a + x == b + y,
        forall|j: int| 0 <= j < a.len() ==> p(#[trigger] a[j]),
        forall|j: int| 0 <= j < b.len() ==> p(#[trigger] b[j]),
        x.len() == 0 || !p(x[0]),
        y.len() == 0 || !p(y[0]),
    ensures
        a == b,
        x == y,
{
    assert((a + x).len() == (b + y).len());
    if a.len() < b.len() {
        assert(x.len() > 0);
        assert((a + x)[a.len() as int] == x[0]);
        assert((b + y)[a.len() as int] == b[a.len() as int]);
        assert(false);
    }
    if b.len() < a.len() {
        assert(y.len() > 0);
        assert((b + y)[b.len() as int] == y[0]);
        assert((a + x)[b.len() as int] == a[b.len() as int]);
        assert(false);
    }
    assert(a =~= b) by {
        assert forall|j: int| 0 <= j < a.len() implies a[j] == b[j] by {
            assert((a + x)[j] == a[j]);
            assert((b + y)[j] == b[j]);
        }
    }
    assert(x.len() == y.len());
    assert(x =~= y) by {
        assert forall|j: int| 0 <= j < x.len() implies x[j] == y[j] by {
            assert((a + x)[a.len() + j] == x[j]);
            assert(b.len() + j < (b + y).len());
            assert((b + y)[b.len() + j] == y[j]);
        }
    }
}

/// Concatenation of texts is associative.
pub proof fn lemma_concat_assoc(a: Seq<char>, b: Seq<char>, c: Seq<char>)
    ensures
        (a + b) + c == a + (b + c),
{
    assert((a + b) + c =~= a + (b + c));
}

/// Equal texts with an equal prefix have equal remainders.
pub proof fn lemma_concat_cancel(a: Seq<char>, b: Seq<char>, c: Seq<char>)
    requires
        a + b == a + c,
    ensures
        b == c,
{
    assert((a + b).len() == a.len() + b.len());
    assert((a + c).len() == a.len() + c.len());
    assert(b.len() == c.len());
    assert(b =~= c) by {
        assert forall|j: int| 0 <= j < b.len() implies b[j] == c[j] by {
            assert((a + b)[a.len() + j] == b[j]);
            assert(a.len() + j < (a + c).len());
            assert((a + c)[a.len() + j] == c[j]);
        }
    }
}

/// Relies on `String::push`: appends the one character `c` to the end of the
/// string.
#[verifier::external_body]
pub(crate) fn push_char(s: &mut String, c: char)
    ensures
        final(s)@ == old(s)@.push(c),
{
    s.push(c);
}

/// Consumes one or more ASCII whitespace characters from the start of `input`
/// and returns the matched text with the offset of the first character after
/// it.
///
/// Fails exactly when `input` does not start with whitespace.
pub fn whitespace(input: &str) -> (r: Result<(&str, usize), ParseError>)
    ensures
        r is Ok <==> input@.len() > 0 && is_space(input@[0]),
        r matches Ok((t, n)) ==> {
            &&& n == run_end(input@, 0, space_pred())
            &&& 0 < n <= input@.len()
            &&& t@ == input@.subrange(0, n as int)
        },
{
    let e = scan_space(input, 0);
    proof {
        lemma_run_end(input@, 0, space_pred());
    }
    if e == 0 {
        Err(ParseError::Fail(0))
    } else {
        Ok((input.substring_char(0, e), e))
    }
}

} // verus!
