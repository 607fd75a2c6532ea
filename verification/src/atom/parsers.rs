//! Parsers for versions, categories, names, slots, and whole atoms.
//!
//! Each executable parser is verified against a spec-level mirror of the
//! grammar: a function over the input sequence that says where (and whether)
//! the construct starting at a given offset ends, with the same greedy
//! semantics as the code. On success a parser additionally guarantees that
//! the text it consumed is exactly the canonical text of the value it
//! returns.

use vstd::prelude::*;

use crate::atom::{
    cat_ok, joined, suffix_kind_str, vnum_ok, Atom, Blocker, Category, Name, Slot, SlotOperator,
    Version, VersionNumber, VersionOperator, VersionSuffix, VersionSuffixKind,
};
use crate::parser_utils::{
    digit, digit_pred, is_digit, is_lower, is_name_char, is_word_char, is_word_start,
    lemma_run_end, lemma_run_end_is, lower, name_char, run_end, scan_digits, scan_word_chars,
    word_char, word_pred, word_start, ParseError,
};
use crate::useflag::parsers::{usedep_at, usedep_end};
use crate::useflag::UseDep;

verus! {

// ---------------------------------------------------------------------------
// Spec-level grammar mirror: version
// ---------------------------------------------------------------------------

/// The end of the dot-separated number chain whose first digit run ends at
/// `e`: while a `.` followed by a digit stands at `e`, the chain extends
/// through the next digit run.
pub open spec fn numbers_more_end(s: Seq<char>, e: int) -> int
    decreases s.len() - e,
{
    if 0 <= e && e + 1 < s.len() && s[e] == '.' && is_digit(s[e + 1]) {
        proof {
            lemma_run_end(s, e + 2, digit_pred());
        }
        numbers_more_end(s, run_end(s, e + 2, digit_pred()))
    } else {
        e
    }
}

/// The end of the suffix keyword standing at `i`, or `None` when none does.
/// Keywords are tried in the grammar's order: `alpha`, `beta`, `pre`, `rc`,
/// `p`.
pub open spec fn suffix_kind_at(s: Seq<char>, i: int) -> Option<int> {
    if 0 <= i && i + 5 <= s.len() && s[i] == 'a' && s[i + 1] == 'l' && s[i + 2] == 'p'
        && s[i + 3] == 'h' && s[i + 4] == 'a' {
        Some(i + 5)
    } else if 0 <= i && i + 4 <= s.len() && s[i] == 'b' && s[i + 1] == 'e' && s[i + 2] == 't'
        && s[i + 3] == 'a' {
        Some(i + 4)
    } else if 0 <= i && i + 3 <= s.len() && s[i] == 'p' && s[i + 1] == 'r' && s[i + 2] == 'e' {
        Some(i + 3)
    } else if 0 <= i && i + 2 <= s.len() && s[i] == 'r' && s[i + 1] == 'c' {
        Some(i + 2)
    } else if 0 <= i && i < s.len() && s[i] == 'p' {
        Some(i + 1)
    } else {
        None
    }
}

/// The end of one suffix term standing at `i`: the keyword, then an optional
/// digit run. Meaningful only when a keyword stands at `i`.
pub open spec fn suffix_term_end(s: Seq<char>, i: int) -> int {
    match suffix_kind_at(s, i) {
        Some(k) => run_end(s, k, digit_pred()),
        None => i,
    }
}

/// The end of the `_`-separated suffix chain whose first term stands at `i`:
/// while a `_` followed by another keyword follows a term, the chain extends.
/// Meaningful only when a keyword stands at `i`.
pub open spec fn suffix_chain_end(s: Seq<char>, i: int) -> int
    decreases s.len() - i,
{
    if suffix_kind_at(s, i) is Some && 0 <= i <= s.len() {
        let t = suffix_term_end(s, i);
        if t < s.len() && s[t] == '_' && suffix_kind_at(s, t + 1) is Some {
            proof {
                lemma_run_end(s, suffix_kind_at(s, i).unwrap(), digit_pred());
            }
            suffix_chain_end(s, t + 1)
        } else {
            t
        }
    } else {
        i
    }
}

/// A `-r<digits>` revision marker stands at `e`.
pub open spec fn rev_at(s: Seq<char>, e: int) -> bool {
    &&& 0 <= e
    &&& e + 3 <= s.len()
    &&& s[e] == '-'
    &&& s[e + 1] == 'r'
    &&& is_digit(s[e + 2])
}

/// Where the version starting at `i` ends, or `None` when none starts there:
/// dot-separated digit runs, an optional lowercase letter, an optional
/// `_`-led suffix chain, an optional `-r` revision, each taken greedily.
pub open spec fn version_end(s: Seq<char>, i: int) -> Option<int> {
    if !(0 <= i && i < s.len() && is_digit(s[i])) {
        None
    } else {
        let e1 = numbers_more_end(s, run_end(s, i, digit_pred()));
        let e2 = if e1 < s.len() && is_lower(s[e1]) {
            e1 + 1
        } else {
            e1
        };
        let e3 = if e2 < s.len() && s[e2] == '_' && suffix_kind_at(s, e2 + 1) is Some {
            suffix_chain_end(s, e2 + 1)
        } else {
            e2
        };
        let e4 = if rev_at(s, e3) {
            run_end(s, e3 + 2, digit_pred())
        } else {
            e3
        };
        Some(e4)
    }
}

// ---------------------------------------------------------------------------
// Spec-level grammar mirror: name
// ---------------------------------------------------------------------------

/// A `:` stands somewhere at or after `e`.
pub open spec fn colon_later(s: Seq<char>, e: int) -> bool {
    exists|k: int| e <= k < s.len() && s[k] == ':'
}

/// A `-<version>` whose version reaches the end of the input, or is followed
/// by a `:` somewhere later, starts at `q`.
pub open spec fn split_pt(s: Seq<char>, q: int) -> bool {
    &&& 0 <= q < s.len()
    &&& s[q] == '-'
    &&& match version_end(s, q + 1) {
        Some(e2) => e2 == s.len() || colon_later(s, e2),
        None => false,
    }
}

/// Some split point stands at or after `e`.
pub open spec fn later_split(s: Seq<char>, e: int) -> bool {
    exists|q: int| e <= q && #[trigger] split_pt(s, q)
}

/// The scan for the end of a package name stops at `q`: the end of the
/// input; a `-<version>` after which no further split point exists; or a
/// character that cannot continue a name.
pub open spec fn name_stop(s: Seq<char>, q: int) -> bool {
    ||| q == s.len()
    ||| (0 <= q < s.len() && s[q] == '-' && match version_end(s, q + 1) {
        Some(e) => !later_split(s, e),
        None => false,
    })
    ||| (0 <= q < s.len() && !is_name_char(s[q]))
}

/// The first offset at or after `q` where the name scan stops.
pub open spec fn name_scan_end(s: Seq<char>, q: int) -> int
    decreases s.len() - q,
{
    if q < 0 || q >= s.len() {
        q
    } else if name_stop(s, q) {
        q
    } else {
        name_scan_end(s, q + 1)
    }
}

/// The name text itself ends in a `-<version>` run that reaches the end of
/// the text; such a name is rejected.
pub open spec fn rej_at(t: Seq<char>, j: int) -> bool {
    &&& 0 <= j < t.len()
    &&& t[j] == '-'
    &&& version_end(t, j + 1) == Some(t.len() as int)
}

/// The name text is rejected: see [`rej_at`].
pub open spec fn name_rejected(t: Seq<char>) -> bool {
    exists|j: int| #[trigger] rej_at(t, j)
}

/// A valid package name: a leading alphanumeric or underscore, name
/// characters throughout, and no trailing `-<version>` run reaching the end
/// of the text.
pub open spec fn name_ok(t: Seq<char>) -> bool {
    &&& t.len() >= 1
    &&& is_word_start(t[0])
    &&& forall|j: int| 1 <= j < t.len() ==> is_name_char(#[trigger] t[j])
    &&& !name_rejected(t)
}

/// Where the name starting at `i` ends, or `None`: one leading alphanumeric
/// or underscore, then the scan of [`name_scan_end`], rejected as a whole if
/// the text keeps a trailing `-<version>` run.
pub open spec fn name_end(s: Seq<char>, i: int) -> Option<int> {
    if !(0 <= i && i < s.len() && is_word_start(s[i])) {
        None
    } else {
        let q = name_scan_end(s, i + 1);
        if name_rejected(s.subrange(i, q)) {
            None
        } else {
            Some(q)
        }
    }
}

// ---------------------------------------------------------------------------
// Spec-level grammar mirror: category
// ---------------------------------------------------------------------------

/// A category starts at `i`: a word-start character.
pub open spec fn cat_at(s: Seq<char>, i: int) -> bool {
    &&& 0 <= i
    &&& i < s.len()
    &&& is_word_start(s[i])
}

/// The end of the category whose first character stands at `i`.
pub open spec fn cat_end(s: Seq<char>, i: int) -> int {
    run_end(s, i + 1, word_pred())
}

// ---------------------------------------------------------------------------
// Executable parsers: version
// ---------------------------------------------------------------------------

/// Recognizes one version-suffix keyword at `pos`, in the grammar's order of
/// alternatives.
fn suffix_kind(s: &str, pos: usize) -> (r: Option<(VersionSuffixKind, usize)>)
    requires
        pos <= s@.len(),
    ensures
        (r is Some) == (suffix_kind_at(s@, pos as int) is Some),
        r matches Some((k, e)) ==> {
            &&& suffix_kind_at(s@, pos as int) == Some(e as int)
            &&& pos < e <= s@.len()
            &&& suffix_kind_str(k) == s@.subrange(pos as int, e as int)
        },
{
    let n0 = s.unicode_len();
    if n0 - pos >= 5 && s.get_char(pos) == 'a' && s.get_char(pos + 1) == 'l'
        && s.get_char(pos + 2) == 'p' && s.get_char(pos + 3) == 'h' && s.get_char(pos + 4) == 'a' {
        proof {
            assert(suffix_kind_str(VersionSuffixKind::Alpha) =~= s@.subrange(
                pos as int,
                pos as int + 5,
            ));
        }
        Some((VersionSuffixKind::Alpha, pos + 5))
    } else if n0 - pos >= 4 && s.get_char(pos) == 'b' && s.get_char(pos + 1) == 'e'
        && s.get_char(pos + 2) == 't' && s.get_char(pos + 3) == 'a' {
        proof {
            assert(suffix_kind_str(VersionSuffixKind::Beta) =~= s@.subrange(
                pos as int,
                pos as int + 4,
            ));
        }
        Some((VersionSuffixKind::Beta, pos + 4))
    } else if n0 - pos >= 3 && s.get_char(pos) == 'p' && s.get_char(pos + 1) == 'r'
        && s.get_char(pos + 2) == 'e' {
        proof {
            assert(suffix_kind_str(VersionSuffixKind::Pre) =~= s@.subrange(
                pos as int,
                pos as int + 3,
            ));
        }
        Some((VersionSuffixKind::Pre, pos + 3))
    } else if n0 - pos >= 2 && s.get_char(pos) == 'r' && s.get_char(pos + 1) == 'c' {
        proof {
            assert(suffix_kind_str(VersionSuffixKind::Rc) =~= s@.subrange(
                pos as int,
                pos as int + 2,
            ));
        }
        Some((VersionSuffixKind::Rc, pos + 2))
    } else if n0 - pos >= 1 && s.get_char(pos) == 'p' {
        proof {
            assert(suffix_kind_str(VersionSuffixKind::P) =~= s@.subrange(
                pos as int,
                pos as int + 1,
            ));
        }
        Some((VersionSuffixKind::P, pos + 1))
    } else {
        None
    }
}

/// The rest of a suffix chain as seen from an arbitrary offset `e`: the
/// chain extends exactly when a `_` followed by another keyword stands at
/// `e`.
pub open spec fn chain_cont(s: Seq<char>, e: int) -> int {
    if e < s.len() && s[e] == '_' && suffix_kind_at(s, e + 1) is Some {
        suffix_chain_end(s, e + 1)
    } else {
        e
    }
}

/// Parses one suffix term (keyword plus optional digit qualifier) standing
/// at `pos`.
fn suffix_term(s: &str, pos: usize) -> (r: (VersionSuffix, usize))
    requires
        pos <= s@.len(),
        suffix_kind_at(s@, pos as int) is Some,
    ensures
        r.1 == suffix_term_end(s@, pos as int),
        pos < r.1 <= s@.len(),
        r.0.wf(),
        r.0.spec_str() == s@.subrange(pos as int, r.1 as int),
{
    match suffix_kind(s, pos) {
        Some((k, ke)) => {
            proof {
                lemma_run_end(s@, ke as int, digit_pred());
            }
            let de = scan_digits(s, ke);
            let number = if de > ke {
                Some(VersionNumber(s.substring_char(ke, de).to_owned()))
            } else {
                None
            };
            let suf = VersionSuffix { kind: k, number };
            proof {
                assert(suf.spec_str() =~= s@.subrange(pos as int, de as int));
                if de > ke {
                    assert forall|j: int| 0 <= j < de - ke implies is_digit(
                        #[trigger] s@.subrange(ke as int, de as int)[j],
                    ) by {
                        assert(s@.subrange(ke as int, de as int)[j] == s@[ke + j]);
                    }
                }
            }
            (suf, de)
        },
        None => (VersionSuffix { kind: VersionSuffixKind::P, number: None }, pos),
    }
}

/// Parses a version starting at `pos`. On success the consumed text is the
/// canonical text of the returned version.
#[verifier::rlimit(100)]
pub(crate) fn version_at(s: &str, pos: usize) -> (r: Result<(Version, usize), ParseError>)
    requires
        pos <= s@.len(),
    ensures
        r is Ok <==> version_end(s@, pos as int) is Some,
        r matches Ok((v, n)) ==> {
            &&& version_end(s@, pos as int) == Some(n as int)
            &&& pos < n <= s@.len()
            &&& v.wf()
            &&& v.spec_str() == s@.subrange(pos as int, n as int)
        },
        r matches Err(e) ==> e == ParseError::Fail(pos),
{
    let n0 = s.unicode_len();
    if !(pos < n0 && digit(s.get_char(pos))) {
        return Err(ParseError::Fail(pos));
    }
    proof {
        lemma_run_end(s@, pos as int, digit_pred());
    }
    let d0 = scan_digits(s, pos);
    let mut numbers: Vec<VersionNumber> = Vec::new();
    numbers.push(VersionNumber(s.substring_char(pos, d0).to_owned()));
    let mut e = d0;
    proof {
        assert(numbers@.map_values(|x: VersionNumber| x@) =~= seq![
            s@.subrange(pos as int, d0 as int),
        ]);
        assert forall|j: int| 0 <= j < d0 - pos implies is_digit(
            #[trigger] s@.subrange(pos as int, d0 as int)[j],
        ) by {
            assert(s@.subrange(pos as int, d0 as int)[j] == s@[pos + j]);
        }
    }
    while e < n0 && s.get_char(e) == '.' && e + 1 < n0 && digit(s.get_char(e + 1))
        invariant
            pos < d0 <= e <= n0,
            n0 == s@.len(),
            numbers@.len() >= 1,
            numbers_more_end(s@, d0 as int) == numbers_more_end(s@, e as int),
            joined(numbers@.map_values(|x: VersionNumber| x@), seq!['.']) == s@.subrange(
                pos as int,
                e as int,
            ),
            forall|i: int| 0 <= i < numbers@.len() ==> (#[trigger] numbers@[i]).wf(),
        decreases n0 - e,
    {
        proof {
            lemma_run_end(s@, e as int + 2, digit_pred());
        }
        let d = scan_digits(s, e + 1);
        let ghost old_parts = numbers@.map_values(|x: VersionNumber| x@);
        numbers.push(VersionNumber(s.substring_char(e + 1, d).to_owned()));
        proof {
            let parts = numbers@.map_values(|x: VersionNumber| x@);
            assert(parts.drop_last() =~= old_parts);
            assert(parts.last() == s@.subrange(e as int + 1, d as int));
            lemma_joined_snoc_chars(parts, seq!['.']);
            assert(joined(parts, seq!['.']) == joined(old_parts, seq!['.']) + seq!['.']
                + s@.subrange(e as int + 1, d as int));
            assert(s@.subrange(pos as int, e as int) + seq!['.'] + s@.subrange(
                e as int + 1,
                d as int,
            ) =~= s@.subrange(pos as int, d as int));
            assert(run_end(s@, e as int + 1, digit_pred()) == run_end(
                s@,
                e as int + 2,
                digit_pred(),
            ));
            assert forall|j: int| 0 <= j < d - e - 1 implies is_digit(
                #[trigger] s@.subrange(e as int + 1, d as int)[j],
            ) by {
                assert(s@.subrange(e as int + 1, d as int)[j] == s@[e + 1 + j]);
            }
        }
        e = d;
    }
    let ghost e1 = e as int;
    proof {
        assert(numbers_more_end(s@, e as int) == e as int);
    }
    let mut letter: Option<char> = None;
    let mut e2 = e;
    if e < n0 && lower(s.get_char(e)) {
        letter = Some(s.get_char(e));
        e2 = e + 1;
    }
    let mut suffixes: Vec<VersionSuffix> = Vec::new();
    let mut e3 = e2;
    let ghost sstart = e2 as int + 1;
    if e2 < n0 && s.get_char(e2) == '_' && suffix_kind(s, e2 + 1).is_some() {
        let (suf0, te0) = suffix_term(s, e2 + 1);
        suffixes.push(suf0);
        let mut cur = te0;
        proof {
            assert(suffixes@.map_values(|x: VersionSuffix| x.spec_str()) =~= seq![
                suf0.spec_str(),
            ]);
            assert(suffix_chain_end(s@, sstart) == chain_cont(s@, cur as int));
        }
        while cur < n0 && s.get_char(cur) == '_' && suffix_kind(s, cur + 1).is_some()
            invariant
                n0 == s@.len(),
                sstart <= cur <= n0,
                sstart == e2 as int + 1,
                e2 < n0,
                suffixes@.len() >= 1,
                suffix_chain_end(s@, sstart) == chain_cont(s@, cur as int),
                joined(suffixes@.map_values(|x: VersionSuffix| x.spec_str()), seq!['_'])
                    == s@.subrange(sstart, cur as int),
                forall|i: int| 0 <= i < suffixes@.len() ==> (#[trigger] suffixes@[i]).wf(),
            decreases n0 - cur,
        {
            let (suf, te) = suffix_term(s, cur + 1);
            let ghost old_parts = suffixes@.map_values(|x: VersionSuffix| x.spec_str());
            suffixes.push(suf);
            proof {
                let parts = suffixes@.map_values(|x: VersionSuffix| x.spec_str());
                assert(parts.drop_last() =~= old_parts);
                assert(parts.last() == s@.subrange(cur as int + 1, te as int));
                lemma_joined_snoc_chars(parts, seq!['_']);
                assert(s@.subrange(sstart, cur as int) + seq!['_'] + s@.subrange(
                    cur as int + 1,
                    te as int,
                ) =~= s@.subrange(sstart, te as int));
                assert(chain_cont(s@, cur as int) == suffix_chain_end(s@, cur as int + 1));
                assert(suffix_chain_end(s@, cur as int + 1) == chain_cont(s@, te as int));
            }
            cur = te;
        }
        proof {
            assert(chain_cont(s@, cur as int) == cur as int);
            assert(suffix_chain_end(s@, sstart) == cur as int);
        }
        e3 = cur;
    }
    let mut revision: Option<VersionNumber> = None;
    let mut e4 = e3;
    if n0 - e3 >= 3 && s.get_char(e3) == '-' && s.get_char(e3 + 1) == 'r' && digit(
        s.get_char(e3 + 2),
    ) {
        proof {
            lemma_run_end(s@, e3 as int + 2, digit_pred());
        }
        let rend = scan_digits(s, e3 + 2);
        revision = Some(VersionNumber(s.substring_char(e3 + 2, rend).to_owned()));
        proof {
            assert forall|j: int| 0 <= j < rend - e3 - 2 implies is_digit(
                #[trigger] s@.subrange(e3 as int + 2, rend as int)[j],
            ) by {
                assert(s@.subrange(e3 as int + 2, rend as int)[j] == s@[e3 + 2 + j]);
            }
        }
        e4 = rend;
    }
    let v = Version { numbers, letter, suffixes, revision };
    proof {
        assert(version_end(s@, pos as int) == Some(e4 as int));
        assert(v.spec_str() =~= s@.subrange(pos as int, e4 as int));
    }
    Ok((v, e4))
}

/// Appending one more part to a join appends a separator and the part;
/// specialized restatement of [`crate::atom::lemma_joined_snoc`].
proof fn lemma_joined_snoc_chars(parts: Seq<Seq<char>>, sep: Seq<char>)
    requires
        parts.len() >= 2,
    ensures
        joined(parts, sep) =~= joined(parts.drop_last(), sep) + sep + parts.last(),
{
    crate::atom::lemma_joined_snoc(parts, sep);
}

// ---------------------------------------------------------------------------
// Executable parsers: category
// ---------------------------------------------------------------------------

/// Parses a category starting at `pos`: a word-start character, then the
/// longest run of identifier characters.
pub(crate) fn category_at(s: &str, pos: usize) -> (r: Result<(Category, usize), ParseError>)
    requires
        pos <= s@.len(),
    ensures
        r is Ok <==> cat_at(s@, pos as int),
        r matches Ok((c, n)) ==> {
            &&& n == cat_end(s@, pos as int)
            &&& pos < n <= s@.len()
            &&& c@ == s@.subrange(pos as int, n as int)
            &&& c.wf()
        },
        r matches Err(e) ==> e == ParseError::Fail(pos),
{
    let n0 = s.unicode_len();
    if pos < n0 && word_start(s.get_char(pos)) {
        let e = scan_word_chars(s, pos + 1);
        proof {
            lemma_run_end(s@, pos as int + 1, word_pred());
            assert forall|j: int| 1 <= j < e - pos implies is_word_char(
                #[trigger] s@.subrange(pos as int, e as int)[j],
            ) by {
                assert(s@.subrange(pos as int, e as int)[j] == s@[pos + j]);
            }
        }
        let t = s.substring_char(pos, e);
        Ok((Category(t.to_owned()), e))
    } else {
        Err(ParseError::Fail(pos))
    }
}

/// Scans for a `:` at or after `pos`.
fn colon_later_exec(s: &str, pos: usize) -> (r: bool)
    requires
        pos <= s@.len(),
    ensures
        r == colon_later(s@, pos as int),
{
    let n0 = s.unicode_len();
    let mut k = pos;
    while k < n0
        invariant
            pos <= k <= n0,
            n0 == s@.len(),
            forall|j: int| pos <= j < k ==> s@[j] != ':',
        decreases n0 - k,
    {
        if s.get_char(k) == ':' {
            proof {
                assert(pos <= k < s@.len() && s@[k as int] == ':');
            }
            return true;
        }
        k = k + 1;
    }
    false
}

/// Scans for a split point (see [`split_pt`]) at or after `pos`.
fn later_split_exec(s: &str, pos: usize) -> (r: bool)
    requires
        pos <= s@.len(),
    ensures
        r == later_split(s@, pos as int),
{
    let n0 = s.unicode_len();
    let mut q = pos;
    while q < n0
        invariant
            pos <= q <= n0,
            n0 == s@.len(),
            forall|j: int| pos <= j < q ==> !split_pt(s@, j),
        decreases n0 - q,
    {
        if s.get_char(q) == '-' {
            match version_at(s, q + 1) {
                Ok((_, e2)) => {
                    if e2 == n0 {
                        proof {
                            assert(split_pt(s@, q as int));
                        }
                        return true;
                    }
                    if colon_later_exec(s, e2) {
                        proof {
                            assert(split_pt(s@, q as int));
                        }
                        return true;
                    }
                    proof {
                        assert(!split_pt(s@, q as int));
                    }
                },
                Err(_) => {
                    proof {
                        assert(!split_pt(s@, q as int));
                    }
                },
            }
        } else {
            proof {
                assert(!split_pt(s@, q as int));
            }
        }
        q = q + 1;
    }
    false
}

/// Decides whether the name scan stops at `q`.
fn name_stop_exec(s: &str, q: usize) -> (r: bool)
    requires
        q <= s@.len(),
    ensures
        r == name_stop(s@, q as int),
{
    let n0 = s.unicode_len();
    if q == n0 {
        return true;
    }
    let c = s.get_char(q);
    if c == '-' {
        match version_at(s, q + 1) {
            Ok((_, e)) => {
                if !later_split_exec(s, e) {
                    return true;
                }
                proof {
                    assert(match version_end(s@, q as int + 1) {
                        Some(e2) => later_split(s@, e2),
                        None => true,
                    });
                }
            },
            Err(_) => {
                proof {
                    assert(version_end(s@, q as int + 1) is None);
                }
            },
        }
    }
    let r = !name_char(c);
    proof {
        assert(r == name_stop(s@, q as int));
    }
    r
}

/// Decides whether the name text keeps a trailing `-<version>` run reaching
/// its end (see [`name_rejected`]).
fn name_rejected_exec(t: &str) -> (r: bool)
    ensures
        r == name_rejected(t@),
{
    let n0 = t.unicode_len();
    let mut j: usize = 0;
    while j < n0
        invariant
            j <= n0,
            n0 == t@.len(),
            forall|i: int| 0 <= i < j ==> !rej_at(t@, i),
        decreases n0 - j,
    {
        if t.get_char(j) == '-' {
            match version_at(t, j + 1) {
                Ok((_, e)) => {
                    if e == n0 {
                        proof {
                            assert(rej_at(t@, j as int));
                        }
                        return true;
                    }
                    proof {
                        assert(!rej_at(t@, j as int));
                    }
                },
                Err(_) => {
                    proof {
                        assert(!rej_at(t@, j as int));
                    }
                },
            }
        } else {
            proof {
                assert(!rej_at(t@, j as int));
            }
        }
        j = j + 1;
    }
    false
}

/// Parses a package name starting at `pos`: one leading alphanumeric or
/// underscore, then a left-to-right scan with unbounded lookahead that stops
/// at the end of the input, before a uniquely version-shaped `-<version>`
/// tail, or at a character that cannot continue a name; the whole name is
/// then rejected if it still ends in a `-<version>` run of its own.
pub(crate) fn name_at(s: &str, pos: usize) -> (r: Result<(Name, usize), ParseError>)
    requires
        pos <= s@.len(),
    ensures
        r is Ok <==> name_end(s@, pos as int) is Some,
        r matches Ok((nm, n)) ==> {
            &&& name_end(s@, pos as int) == Some(n as int)
            &&& pos < n <= s@.len()
            &&& nm@ == s@.subrange(pos as int, n as int)
            &&& nm.wf()
        },
        r matches Err(e) ==> e == ParseError::Fail(pos),
{
    let n0 = s.unicode_len();
    if !(pos < n0 && word_start(s.get_char(pos))) {
        return Err(ParseError::Fail(pos));
    }
    let mut q = pos + 1;
    while !name_stop_exec(s, q)
        invariant
            pos + 1 <= q <= n0,
            n0 == s@.len(),
            name_scan_end(s@, pos as int + 1) == name_scan_end(s@, q as int),
            forall|p: int| pos + 1 <= p < q ==> !name_stop(s@, p),
        decreases n0 - q,
    {
        proof {
            assert(name_scan_end(s@, q as int) == name_scan_end(s@, q as int + 1));
        }
        q = q + 1;
    }
    proof {
        assert(name_scan_end(s@, pos as int + 1) == q as int);
    }
    let t = s.substring_char(pos, q);
    if name_rejected_exec(t) {
        proof {
            assert(name_end(s@, pos as int) is None);
        }
        return Err(ParseError::Fail(pos));
    }
    proof {
        assert forall|j: int| 1 <= j < q - pos implies is_name_char(#[trigger] t@[j]) by {
            assert(t@[j] == s@[pos + j]);
            assert(!name_stop(s@, pos + j));
        }
        assert(t@[0] == s@[pos as int]);
        assert(name_ok(t@));
        assert(name_end(s@, pos as int) == Some(q as int));
    }
    Ok((Name(t.to_owned()), q))
}

/// Parses a package name from the start of `input`, returning the name and
/// the offset of the first unconsumed character.
pub fn name(input: &str) -> (r: Result<(Name, usize), ParseError>)
    ensures
        r is Ok <==> name_end(input@, 0) is Some,
        r matches Ok((nm, n)) ==> {
            &&& name_end(input@, 0) == Some(n as int)
            &&& 0 < n <= input@.len()
            &&& nm@ == input@.subrange(0, n as int)
            &&& nm.wf()
        },
{
    name_at(input, 0)
}

/// Parses a category from the start of `input`, returning the category and
/// the offset of the first unconsumed character.
pub fn category(input: &str) -> (r: Result<(Category, usize), ParseError>)
    ensures
        r is Ok <==> cat_at(input@, 0),
        r matches Ok((c, n)) ==> {
            &&& n == cat_end(input@, 0)
            &&& 0 < n <= input@.len()
            &&& c@ == input@.subrange(0, n as int)
            &&& c.wf()
        },
{
    category_at(input, 0)
}

/// Parses a version from the start of `input`, returning the version and the
/// offset of the first unconsumed character.
pub fn version(input: &str) -> (r: Result<(Version, usize), ParseError>)
    ensures
        r is Ok <==> version_end(input@, 0) is Some,
        r matches Ok((v, n)) ==> {
            &&& version_end(input@, 0) == Some(n as int)
            &&& 0 < n <= input@.len()
            &&& v.wf()
            &&& v.spec_str() == input@.subrange(0, n as int)
        },
{
    version_at(input, 0)
}

// ---------------------------------------------------------------------------
// Spec-level grammar mirror: slot, operators, atoms
// ---------------------------------------------------------------------------

/// The end of the optional blocker standing at `i`: `!!`, `!`, or nothing.
pub open spec fn blocker_opt_end(s: Seq<char>, i: int) -> int {
    if 0 <= i && i + 1 < s.len() && s[i] == '!' && s[i + 1] == '!' {
        i + 2
    } else if 0 <= i && i < s.len() && s[i] == '!' {
        i + 1
    } else {
        i
    }
}

/// The end of the optional version operator standing at `i`, trying `<=` and
/// `>=` before the single-character operators.
pub open spec fn vop_opt_end(s: Seq<char>, i: int) -> int {
    if 0 <= i && i + 1 < s.len() && s[i] == '<' && s[i + 1] == '=' {
        i + 2
    } else if 0 <= i && i + 1 < s.len() && s[i] == '>' && s[i + 1] == '=' {
        i + 2
    } else if 0 <= i && i < s.len() && (s[i] == '=' || s[i] == '<' || s[i] == '>' || s[i] == '~') {
        i + 1
    } else {
        i
    }
}

/// Where the slot starting at `i` (just after the `:`) ends, or `None` when
/// it is malformed: an identifier, `*`, or an empty primary seen only before
/// `=`; then an optional `/`-led sub-identifier (mandatory once the `/` is
/// consumed); then an optional `=`.
pub open spec fn slot_end(s: Seq<char>, i: int) -> Option<int> {
    let p = if 0 <= i && i < s.len() && is_word_start(s[i]) {
        Some(run_end(s, i + 1, word_pred()))
    } else if 0 <= i && i < s.len() && s[i] == '*' {
        Some(i + 1)
    } else if 0 <= i && i < s.len() && s[i] == '=' {
        Some(i)
    } else {
        None
    };
    match p {
        None => None,
        Some(pe) => {
            if pe < s.len() && s[pe] == '/' {
                if pe + 1 < s.len() && is_word_start(s[pe + 1]) {
                    let se = run_end(s, pe + 2, word_pred());
                    Some(
                        if se < s.len() && s[se] == '=' {
                            se + 1
                        } else {
                            se
                        },
                    )
                } else {
                    None
                }
            } else {
                Some(
                    if pe < s.len() && s[pe] == '=' {
                        pe + 1
                    } else {
                        pe
                    },
                )
            }
        },
    }
}

/// Where the comma-separated USE-dependency list starting at `i` (just after
/// the `[`) ends, `]` included, or `None` when it is malformed.
pub open spec fn usedep_list_end(s: Seq<char>, i: int) -> Option<int>
    decreases s.len() - i, 1int,
{
    if !(0 <= i <= s.len()) {
        None
    } else {
        match usedep_end(s, i) {
            None => None,
            Some(e) => {
                proof {
                    crate::useflag::parsers::lemma_usedep_end_bounds(s, i);
                }
                list_cont(s, e)
            },
        }
    }
}

/// The rest of a USE-dependency list as seen from the end of an item: a `,`
/// continues the list, a `]` closes it, anything else is malformed.
pub open spec fn list_cont(s: Seq<char>, e: int) -> Option<int>
    decreases s.len() - e, 0int,
{
    if 0 <= e && e < s.len() && s[e] == ',' {
        usedep_list_end(s, e + 1)
    } else if 0 <= e && e < s.len() && s[e] == ']' {
        Some(e + 1)
    } else {
        None
    }
}

/// The end of the optional bracketed USE-dependency list standing at `u`, or
/// `None` when a `[` stands there but the list is malformed.
pub open spec fn atom_tail(s: Seq<char>, u: int) -> Option<int> {
    if 0 <= u && u < s.len() && s[u] == '[' {
        usedep_list_end(s, u + 1)
    } else {
        Some(u)
    }
}

/// The atom grammar has committed at `i`: a category followed by its `/`
/// stands there, so any failure past that point is hard.
pub open spec fn atom_committed(s: Seq<char>, i: int) -> bool {
    let b = blocker_opt_end(s, i);
    let o = vop_opt_end(s, b);
    &&& cat_at(s, o)
    &&& cat_end(s, o) < s.len()
    &&& s[cat_end(s, o)] == '/'
}

/// Where the atom starting at `i` ends, or `None` when none starts there:
/// optional blocker, optional version operator, category, `/`, name,
/// optional `-version`, optional `:slot`, optional `[usedeps]`.
pub open spec fn atom_end(s: Seq<char>, i: int) -> Option<int> {
    let b = blocker_opt_end(s, i);
    let o = vop_opt_end(s, b);
    if !cat_at(s, o) {
        None
    } else {
        let c = cat_end(s, o);
        if !(c < s.len() && s[c] == '/') {
            None
        } else {
            match name_end(s, c + 1) {
                None => None,
                Some(nm) => {
                    let v = if nm < s.len() && s[nm] == '-' && version_end(s, nm + 1) is Some {
                        version_end(s, nm + 1).unwrap()
                    } else {
                        nm
                    };
                    if v < s.len() && s[v] == ':' {
                        match slot_end(s, v + 1) {
                            None => None,
                            Some(se) => atom_tail(s, se),
                        }
                    } else {
                        atom_tail(s, v)
                    }
                },
            }
        }
    }
}

// ---------------------------------------------------------------------------
// Executable parsers: slot and atom
// ---------------------------------------------------------------------------

/// Parses a slot starting at `pos`, just after the `:`. Failures here are
/// hard: the grammar has committed to a slot.
#[verifier::rlimit(60)]
pub(crate) fn slot_at(s: &str, pos: usize) -> (r: Result<(Slot, usize), ParseError>)
    requires
        pos <= s@.len(),
    ensures
        r is Ok <==> slot_end(s@, pos as int) is Some,
        r matches Ok((sl, n)) ==> {
            &&& slot_end(s@, pos as int) == Some(n as int)
            &&& pos < n <= s@.len()
            &&& sl.wf()
            &&& sl.spec_str() == s@.subrange(pos as int, n as int)
        },
        r matches Err(e) ==> e matches ParseError::Cut(_),
{
    let n0 = s.unicode_len();
    let (primary, pe): (String, usize) = if pos < n0 && word_start(s.get_char(pos)) {
        let e = scan_word_chars(s, pos + 1);
        proof {
            lemma_run_end(s@, pos as int + 1, word_pred());
            assert forall|j: int| 1 <= j < e - pos implies is_word_char(
                #[trigger] s@.subrange(pos as int, e as int)[j],
            ) by {
                assert(s@.subrange(pos as int, e as int)[j] == s@[pos + j]);
            }
        }
        (s.substring_char(pos, e).to_owned(), e)
    } else if pos < n0 && s.get_char(pos) == '*' {
        proof {
            assert(s@.subrange(pos as int, pos as int + 1) =~= seq![s@[pos as int]]);
        }
        (s.substring_char(pos, pos + 1).to_owned(), pos + 1)
    } else if pos < n0 && s.get_char(pos) == '=' {
        (String::new(), pos)
    } else {
        return Err(ParseError::Cut(pos));
    };
    let (sub, af): (Option<String>, usize) = if pe < n0 && s.get_char(pe) == '/' {
        if n0 - pe >= 2 && word_start(s.get_char(pe + 1)) {
            let se = scan_word_chars(s, pe + 2);
            proof {
                lemma_run_end(s@, pe as int + 2, word_pred());
                assert forall|j: int| 1 <= j < se - pe - 1 implies is_word_char(
                    #[trigger] s@.subrange(pe as int + 1, se as int)[j],
                ) by {
                    assert(s@.subrange(pe as int + 1, se as int)[j] == s@[pe + 1 + j]);
                }
            }
            (Some(s.substring_char(pe + 1, se).to_owned()), se)
        } else {
            return Err(ParseError::Cut(pe + 1));
        }
    } else {
        (None, pe)
    };
    let (operator, end) = if af < n0 && s.get_char(af) == '=' {
        (Some(SlotOperator::Eq), af + 1)
    } else {
        (None, af)
    };
    let sl = Slot { primary, sub, operator };
    proof {
        assert(slot_end(s@, pos as int) == Some(end as int));
        assert(sl.spec_str() =~= s@.subrange(pos as int, end as int));
    }
    Ok((sl, end))
}

/// Parses the optional bracketed USE-dependency list standing at `u`.
/// Failures past the `[` are hard: the grammar has committed to a list.
#[verifier::rlimit(60)]
fn usedeps_at(s: &str, u: usize) -> (r: Result<(Vec<UseDep>, usize), ParseError>)
    requires
        u <= s@.len(),
    ensures
        r is Ok <==> atom_tail(s@, u as int) is Some,
        r matches Ok((ds, n)) ==> {
            &&& atom_tail(s@, u as int) == Some(n as int)
            &&& u <= n <= s@.len()
            &&& forall|i: int| 0 <= i < ds@.len() ==> (#[trigger] ds@[i]).wf()
            &&& (if ds@.len() > 0 {
                seq!['['] + joined(ds@.map_values(|x: UseDep| x.spec_str()), seq![',']) + seq![']']
            } else {
                Seq::<char>::empty()
            }) == s@.subrange(u as int, n as int)
        },
        r matches Err(e) ==> e matches ParseError::Cut(_),
{
    let n0 = s.unicode_len();
    let mut usedeps: Vec<UseDep> = Vec::new();
    if !(u < n0 && s.get_char(u) == '[') {
        proof {
            assert(s@.subrange(u as int, u as int) =~= Seq::<char>::empty());
        }
        return Ok((usedeps, u));
    }
    let (d0, e0) = match usedep_at(s, u + 1) {
        Err(_) => {
            return Err(ParseError::Cut(u + 1));
        },
        Ok(p) => p,
    };
    usedeps.push(d0);
    let mut p = e0;
    proof {
        assert(usedeps@.map_values(|x: UseDep| x.spec_str()) =~= seq![d0.spec_str()]);
        assert(usedep_list_end(s@, u as int + 1) == list_cont(s@, p as int));
    }
    while p < n0 && s.get_char(p) == ','
        invariant
            n0 == s@.len(),
            u as int + 1 <= p <= n0,
            u < n0,
            s@[u as int] == '[',
            usedeps@.len() >= 1,
            usedep_list_end(s@, u as int + 1) == list_cont(s@, p as int),
            joined(usedeps@.map_values(|x: UseDep| x.spec_str()), seq![',']) == s@.subrange(
                u as int + 1,
                p as int,
            ),
            forall|i: int| 0 <= i < usedeps@.len() ==> (#[trigger] usedeps@[i]).wf(),
        decreases n0 - p,
    {
        let (d, e) = match usedep_at(s, p + 1) {
            Err(_) => {
                proof {
                    assert(list_cont(s@, p as int) is None);
                    assert(atom_tail(s@, u as int) == usedep_list_end(s@, u as int + 1));
                }
                return Err(ParseError::Cut(p + 1));
            },
            Ok(pr) => pr,
        };
        let ghost old_parts = usedeps@.map_values(|x: UseDep| x.spec_str());
        usedeps.push(d);
        proof {
            let parts = usedeps@.map_values(|x: UseDep| x.spec_str());
            assert(parts.drop_last() =~= old_parts);
            assert(parts.last() == s@.subrange(p as int + 1, e as int));
            lemma_joined_snoc_chars(parts, seq![',']);
            assert(s@.subrange(u as int + 1, p as int) + seq![','] + s@.subrange(
                p as int + 1,
                e as int,
            ) =~= s@.subrange(u as int + 1, e as int));
            assert(list_cont(s@, p as int) == usedep_list_end(s@, p as int + 1));
            assert(usedep_list_end(s@, p as int + 1) == list_cont(s@, e as int));
        }
        p = e;
    }
    if p < n0 && s.get_char(p) == ']' {
        proof {
            assert(list_cont(s@, p as int) == Some(p as int + 1));
            assert(seq!['['] + joined(usedeps@.map_values(|x: UseDep| x.spec_str()), seq![','])
                + seq![']'] =~= s@.subrange(u as int, p as int + 1));
        }
        Ok((usedeps, p + 1))
    } else {
        proof {
            assert(list_cont(s@, p as int) is None);
        }
        Err(ParseError::Cut(p))
    }
}

/// Collects the facts established while parsing an atom's parts into the
/// atom-level mirror result and the canonical-text guarantee.
#[verifier::rlimit(80)]
#[verifier::spinoff_prover]
proof fn lemma_atom_collect(
    a: Atom,
    s: Seq<char>,
    pos: int,
    b: int,
    o: int,
    c: int,
    ne: int,
    ve: int,
    se: int,
    end: int,
)
    requires
        0 <= pos <= b <= o <= c,
        c + 1 <= ne <= ve <= se <= end <= s.len(),
        b == blocker_opt_end(s, pos),
        o == vop_opt_end(s, b),
        match a.blocker {
            None => b == pos,
            Some(Blocker::Weak) => b == pos + 1 && s[pos] == '!',
            Some(Blocker::Strong) => b == pos + 2 && s[pos] == '!' && s[pos + 1] == '!',
        },
        match a.version_operator {
            None => o == b,
            Some(VersionOperator::Eq) => o == b + 1 && s[b] == '=',
            Some(VersionOperator::Lt) => o == b + 1 && s[b] == '<',
            Some(VersionOperator::Gt) => o == b + 1 && s[b] == '>',
            Some(VersionOperator::Roughly) => o == b + 1 && s[b] == '~',
            Some(VersionOperator::LtEq) => o == b + 2 && s[b] == '<' && s[b + 1] == '=',
            Some(VersionOperator::GtEq) => o == b + 2 && s[b] == '>' && s[b + 1] == '=',
        },
        cat_at(s, o),
        c == cat_end(s, o),
        a.category@ == s.subrange(o, c),
        s[c] == '/',
        name_end(s, c + 1) == Some(ne),
        a.name@ == s.subrange(c + 1, ne),
        match a.version {
            Some(v) => ne < s.len() && s[ne] == '-' && version_end(s, ne + 1) == Some(ve)
                && ne + 1 <= ve && v.spec_str() == s.subrange(ne + 1, ve),
            None => ve == ne && !(ne < s.len() && s[ne] == '-' && version_end(s, ne + 1) is Some),
        },
        match a.slot {
            Some(sl) => ve < s.len() && s[ve] == ':' && slot_end(s, ve + 1) == Some(se)
                && ve + 1 <= se && sl.spec_str() == s.subrange(ve + 1, se),
            None => se == ve && !(ve < s.len() && s[ve] == ':'),
        },
        atom_tail(s, se) == Some(end),
        (if a.usedeps@.len() > 0 {
            seq!['['] + joined(a.usedeps@.map_values(|x: UseDep| x.spec_str()), seq![','])
                + seq![']']
        } else {
            Seq::<char>::empty()
        }) == s.subrange(se, end),
    ensures
        atom_end(s, pos) == Some(end),
        a.spec_str() == s.subrange(pos, end),
{
    assert(atom_end(s, pos) == Some(end));
    assert((match a.blocker {
        Some(bb) => crate::atom::blocker_str(bb),
        None => Seq::<char>::empty(),
    }) =~= s.subrange(pos, b));
    assert((match a.version_operator {
        Some(oo) => crate::atom::vop_str(oo),
        None => Seq::<char>::empty(),
    }) =~= s.subrange(b, o));
    match a.version {
        Some(v) => {
            let lhs = seq!['-'] + v.spec_str();
            assert(v.spec_str().len() == ve - (ne + 1));
            assert(lhs.len() == ve - ne);
            assert(lhs[0] == '-');
            assert forall|j: int| 1 <= j < ve - ne implies lhs[j] == s.subrange(ne, ve)[j] by {
                assert(lhs[j] == v.spec_str()[j - 1]);
                assert(v.spec_str()[j - 1] == s.subrange(ne + 1, ve)[j - 1]);
                assert(s.subrange(ne + 1, ve)[j - 1] == s[ne + j]);
                assert(s.subrange(ne, ve)[j] == s[ne + j]);
            }
            assert(lhs =~= s.subrange(ne, ve));
        },
        None => {
            assert(s.subrange(ne, ve) =~= Seq::<char>::empty());
        },
    }
    match a.slot {
        Some(sl) => {
            let lhs = seq![':'] + sl.spec_str();
            assert(sl.spec_str().len() == se - (ve + 1));
            assert(lhs.len() == se - ve);
            assert(lhs[0] == ':');
            assert forall|j: int| 1 <= j < se - ve implies lhs[j] == s.subrange(ve, se)[j] by {
                assert(lhs[j] == sl.spec_str()[j - 1]);
                assert(sl.spec_str()[j - 1] == s.subrange(ve + 1, se)[j - 1]);
                assert(s.subrange(ve + 1, se)[j - 1] == s[ve + j]);
                assert(s.subrange(ve, se)[j] == s[ve + j]);
            }
            assert(lhs =~= s.subrange(ve, se));
        },
        None => {
            assert(s.subrange(ve, se) =~= Seq::<char>::empty());
        },
    }
    assert(seq!['/'] =~= s.subrange(c, c + 1));
    assert(s.subrange(pos, b) + s.subrange(b, o) =~= s.subrange(pos, o));
    assert(s.subrange(pos, o) + s.subrange(o, c) =~= s.subrange(pos, c));
    assert(s.subrange(pos, c) + s.subrange(c, c + 1) =~= s.subrange(pos, c + 1));
    assert(s.subrange(pos, c + 1) + s.subrange(c + 1, ne) =~= s.subrange(pos, ne));
    assert(s.subrange(pos, ne) + s.subrange(ne, ve) =~= s.subrange(pos, ve));
    assert(s.subrange(pos, ve) + s.subrange(ve, se) =~= s.subrange(pos, se));
    assert(s.subrange(pos, se) + s.subrange(se, end) =~= s.subrange(pos, end));
    assert(a.spec_str() == s.subrange(pos, end));
}

/// Parses an atom starting at `pos`. On success the consumed text is the
/// canonical text of the returned atom.
#[verifier::rlimit(100)]
#[verifier::spinoff_prover]
pub(crate) fn atom_at(s: &str, pos: usize) -> (r: Result<(Atom, usize), ParseError>)
    requires
        pos <= s@.len(),
    ensures
        r is Ok <==> atom_end(s@, pos as int) is Some,
        r matches Ok((a, n)) ==> {
            &&& atom_end(s@, pos as int) == Some(n as int)
            &&& pos < n <= s@.len()
            &&& a.wf()
            &&& a.spec_str() == s@.subrange(pos as int, n as int)
        },
        r matches Err(e) ==> (e matches ParseError::Cut(_) <==> atom_committed(s@, pos as int)),
{
    let n0 = s.unicode_len();
    let (blocker, b) = if n0 - pos >= 2 && s.get_char(pos) == '!' && s.get_char(pos + 1) == '!' {
        (Some(Blocker::Strong), pos + 2)
    } else if pos < n0 && s.get_char(pos) == '!' {
        (Some(Blocker::Weak), pos + 1)
    } else {
        (None, pos)
    };
    let (vop, o) = if n0 - b >= 2 && s.get_char(b) == '<' && s.get_char(b + 1) == '=' {
        (Some(VersionOperator::LtEq), b + 2)
    } else if n0 - b >= 2 && s.get_char(b) == '>' && s.get_char(b + 1) == '=' {
        (Some(VersionOperator::GtEq), b + 2)
    } else if b < n0 && s.get_char(b) == '=' {
        (Some(VersionOperator::Eq), b + 1)
    } else if b < n0 && s.get_char(b) == '<' {
        (Some(VersionOperator::Lt), b + 1)
    } else if b < n0 && s.get_char(b) == '>' {
        (Some(VersionOperator::Gt), b + 1)
    } else if b < n0 && s.get_char(b) == '~' {
        (Some(VersionOperator::Roughly), b + 1)
    } else {
        (None, b)
    };
    proof {
        assert(blocker_opt_end(s@, pos as int) == b as int);
        assert(vop_opt_end(s@, b as int) == o as int);
    }
    let (cat, c) = match category_at(s, o) {
        Err(_) => {
            proof {
                assert(!atom_committed(s@, pos as int));
            }
            return Err(ParseError::Fail(o));
        },
        Ok(p) => p,
    };
    if !(c < n0 && s.get_char(c) == '/') {
        proof {
            assert(!atom_committed(s@, pos as int));
        }
        return Err(ParseError::Fail(c));
    }
    proof {
        assert(atom_committed(s@, pos as int));
    }
    let (nm, ne) = match name_at(s, c + 1) {
        Err(_) => {
            return Err(ParseError::Cut(c + 1));
        },
        Ok(p) => p,
    };
    let (version, ve) = if ne < n0 && s.get_char(ne) == '-' {
        match version_at(s, ne + 1) {
            Ok((v, e)) => (Some(v), e),
            Err(_) => (None, ne),
        }
    } else {
        (None, ne)
    };
    let (slot, se) = if ve < n0 && s.get_char(ve) == ':' {
        match slot_at(s, ve + 1) {
            Ok((sl, e)) => (Some(sl), e),
            Err(_) => {
                return Err(ParseError::Cut(ve + 1));
            },
        }
    } else {
        (None, ve)
    };
    let (usedeps, end) = match usedeps_at(s, se) {
        Err(e) => {
            return Err(e);
        },
        Ok(p) => p,
    };
    let a = Atom { blocker, version_operator: vop, category: cat, name: nm, version, slot, usedeps };
    proof {
        lemma_atom_collect(
            a,
            s@,
            pos as int,
            b as int,
            o as int,
            c as int,
            ne as int,
            ve as int,
            se as int,
            end as int,
        );
    }
    Ok((a, end))
}

/// Parses an atom from the start of `input`, returning the atom and the
/// offset of the first unconsumed character.
pub fn atom(input: &str) -> (r: Result<(Atom, usize), ParseError>)
    ensures
        r is Ok <==> atom_end(input@, 0) is Some,
        r matches Ok((a, n)) ==> {
            &&& atom_end(input@, 0) == Some(n as int)
            &&& 0 < n <= input@.len()
            &&& a.wf()
            &&& a.spec_str() == input@.subrange(0, n as int)
        },
        r matches Err(e) ==> (e matches ParseError::Cut(_) <==> atom_committed(input@, 0)),
{
    atom_at(input, 0)
}

// ---------------------------------------------------------------------------
// The mirror accepts every canonical version text
// ---------------------------------------------------------------------------

/// Scanning the canonical text of a dot-separated number chain, laid out at
/// `i` and followed by neither a digit nor a dot, consumes exactly the
/// chain.
#[verifier::rlimit(100)]
proof fn lemma_numbers_scan(s: Seq<char>, i: int, np: Seq<Seq<char>>)
    requires
        np.len() >= 1,
        forall|k: int| 0 <= k < np.len() ==> vnum_ok(#[trigger] np[k]),
        0 <= i,
        i + joined(np, seq!['.']).len() <= s.len(),
        s.subrange(i, i + joined(np, seq!['.']).len()) == joined(np, seq!['.']),
        i + joined(np, seq!['.']).len() == s.len() || (!is_digit(
            s[i + joined(np, seq!['.']).len()],
        ) && s[i + joined(np, seq!['.']).len()] != '.'),
    ensures
        is_digit(s[i]),
        run_end(s, i, digit_pred()) == i + np[0].len(),
        numbers_more_end(s, i + np[0].len()) == i + joined(np, seq!['.']).len(),
    decreases np.len(),
{
    let w = joined(np, seq!['.']);
    let jl = w.len();
    let a = np[0];
    assert forall|j: int| 0 <= j < jl implies s[i + j] == w[j] by {
        assert(s.subrange(i, i + jl)[j] == s[i + j]);
    }
    if np.len() == 1 {
        assert(w == a);
        assert forall|j: int| i <= j < i + a.len() implies digit_pred()(#[trigger] s[j]) by {
            assert(s[j] == a[j - i]);
        }
        assert(is_digit(s[i]));
        lemma_run_end_is(s, i, i + a.len(), digit_pred());
        assert(numbers_more_end(s, i + a.len()) == i + a.len());
    } else {
        let tail = np.drop_first();
        let jt = joined(tail, seq!['.']);
        assert(w == a + seq!['.'] + jt);
        assert((a + seq!['.']).len() == a.len() + 1);
        assert(jl == a.len() + 1 + jt.len());
        assert forall|j: int| 0 <= j < a.len() implies w[j] == a[j] by {
            assert(w[j] == (a + seq!['.'])[j]);
        }
        assert(w[a.len() as int] == (a + seq!['.'])[a.len() as int]);
        assert(w[a.len() as int] == '.');
        assert forall|j: int| i <= j < i + a.len() implies digit_pred()(#[trigger] s[j]) by {
            assert(s[j] == w[j - i]);
            assert(w[j - i] == a[j - i]);
        }
        assert(is_digit(s[i]));
        assert(s[i + a.len()] == '.');
        lemma_run_end_is(s, i, i + a.len(), digit_pred());
        let i2 = i + a.len() + 1;
        assert forall|k: int| 0 <= k < tail.len() implies vnum_ok(#[trigger] tail[k]) by {
            assert(tail[k] == np[k + 1]);
        }
        assert(s.subrange(i2, i2 + jt.len()) =~= jt) by {
            assert forall|j: int| 0 <= j < jt.len() implies s.subrange(i2, i2 + jt.len())[j]
                == jt[j] by {
                assert(s.subrange(i2, i2 + jt.len())[j] == s[i2 + j]);
                assert(s[i2 + j] == w[a.len() + 1 + j]);
                assert(w[a.len() + 1 + j] == jt[j]);
            }
        }
        lemma_numbers_scan(s, i2, tail);
        assert(numbers_more_end(s, i + a.len()) == numbers_more_end(
            s,
            run_end(s, i + a.len() + 2, digit_pred()),
        ));
        assert(run_end(s, i2, digit_pred()) == run_end(s, i + a.len() + 2, digit_pred()));
        assert(numbers_more_end(s, i2 + tail[0].len()) == i2 + jt.len());
        assert(numbers_more_end(s, run_end(s, i2, digit_pred())) == i + jl);
    }
}

/// The keyword of the suffix standing at `i` in canonical text is
/// recognized exactly, in the grammar's order of alternatives.
proof fn lemma_kind_at_reads(s: Seq<char>, i: int, u: VersionSuffix, e: int)
    requires
        0 <= i,
        i + u.spec_str().len() <= s.len(),
        s.subrange(i, i + u.spec_str().len()) == u.spec_str(),
        e == i + u.spec_str().len(),
        e == s.len() || s[e] == '_' || s[e] == '-',
        u.wf(),
    ensures
        suffix_kind_at(s, i) == Some(i + suffix_kind_str(u.kind).len()),
        suffix_term_end(s, i) == e,
{
    let k = suffix_kind_str(u.kind);
    let n = match u.number {
        Some(d) => d@,
        None => Seq::<char>::empty(),
    };
    let t = u.spec_str();
    assert(t == k + n);
    assert(t.len() == k.len() + n.len());
    assert forall|j: int| 0 <= j < t.len() implies s[i + j] == t[j] by {
        assert(s.subrange(i, i + t.len())[j] == s[i + j]);
    }
    assert forall|j: int| 0 <= j < k.len() implies t[j] == k[j] by {
        assert((k + n)[j] == k[j]);
    }
    assert forall|j: int| 0 <= j < n.len() implies t[k.len() + j] == n[j] by {
        assert((k + n)[k.len() + j] == n[j]);
    }
    assert forall|j: int| 0 <= j < k.len() implies s[i + j] == k[j] by {
        assert(s[i + j] == t[j]);
    }
    // The character just after the keyword is a digit, `_`, `-`, or the end:
    // never one that lets an earlier alternative match.
    if n.len() > 0 {
        assert(vnum_ok(n));
        assert(t[k.len() as int] == n[0]) by {
            assert((k + n)[k.len() as int] == n[0]);
        }
        assert(s[i + k.len()] == t[k.len() as int]);
        assert(is_digit(s[i + k.len()]));
    } else {
        assert(i + k.len() == e);
    }
    assert(i + k.len() == s.len() || is_digit(s[i + k.len()]) || s[i + k.len()] == '_' || s[i
        + k.len()] == '-');
    match u.kind {
        VersionSuffixKind::Alpha => {
            assert(k.len() == 5);
            assert(s[i + 0] == k[0] && k[0] == 'a');
            assert(s[i + 1] == k[1] && k[1] == 'l');
            assert(s[i + 2] == k[2] && k[2] == 'p');
            assert(s[i + 3] == k[3] && k[3] == 'h');
            assert(s[i + 4] == k[4] && k[4] == 'a');
        },
        VersionSuffixKind::Beta => {
            assert(k.len() == 4);
            assert(s[i + 0] == k[0] && k[0] == 'b');
            assert(s[i + 1] == k[1] && k[1] == 'e');
            assert(s[i + 2] == k[2] && k[2] == 't');
            assert(s[i + 3] == k[3] && k[3] == 'a');
        },
        VersionSuffixKind::Pre => {
            assert(k.len() == 3);
            assert(s[i + 0] == k[0] && k[0] == 'p');
            assert(s[i + 1] == k[1] && k[1] == 'r');
            assert(s[i + 2] == k[2] && k[2] == 'e');
        },
        VersionSuffixKind::Rc => {
            assert(k.len() == 2);
            assert(s[i + 0] == k[0] && k[0] == 'r');
            assert(s[i + 1] == k[1] && k[1] == 'c');
        },
        VersionSuffixKind::P => {
            assert(k.len() == 1);
            assert(s[i + 0] == k[0] && k[0] == 'p');
            if i + 3 <= s.len() {
                assert(s[i + 1] != 'r');
            }
        },
    }
    assert(suffix_kind_at(s, i) == Some(i + k.len()));
    assert forall|j: int| i + k.len() <= j < e implies digit_pred()(#[trigger] s[j]) by {
        assert(s[j] == t[j - i]);
        assert(t[j - i] == n[j - i - k.len()]);
    }
    lemma_run_end_is(s, i + k.len(), e, digit_pred());
}

/// Scanning the canonical text of a `_`-separated suffix chain, laid out at
/// `i` and followed by `-` or the end of the input, consumes exactly the
/// chain.
#[verifier::rlimit(100)]
proof fn lemma_suffix_scan(s: Seq<char>, i: int, sufs: Seq<VersionSuffix>)
    requires
        sufs.len() >= 1,
        forall|k: int| 0 <= k < sufs.len() ==> (#[trigger] sufs[k]).wf(),
        0 <= i,
        i + joined(sufs.map_values(|z: VersionSuffix| z.spec_str()), seq!['_']).len() <= s.len(),
        s.subrange(i, i + joined(sufs.map_values(|z: VersionSuffix| z.spec_str()), seq!['_']).len())
            == joined(sufs.map_values(|z: VersionSuffix| z.spec_str()), seq!['_']),
        ({
            let e = i + joined(sufs.map_values(|z: VersionSuffix| z.spec_str()), seq!['_']).len();
            e == s.len() || s[e] == '-'
        }),
    ensures
        suffix_kind_at(s, i) is Some,
        suffix_chain_end(s, i) == i + joined(
            sufs.map_values(|z: VersionSuffix| z.spec_str()),
            seq!['_'],
        ).len(),
    decreases sufs.len(),
{
    let m = sufs.map_values(|z: VersionSuffix| z.spec_str());
    let w = joined(m, seq!['_']);
    let jl = w.len();
    let a = m[0];
    assert(a == sufs[0].spec_str());
    assert forall|j: int| 0 <= j < jl implies s[i + j] == w[j] by {
        assert(s.subrange(i, i + jl)[j] == s[i + j]);
    }
    if sufs.len() == 1 {
        assert(w == a);
        assert(s.subrange(i, i + a.len()) =~= a) by {
            assert forall|j: int| 0 <= j < a.len() implies s.subrange(i, i + a.len())[j] == a[j] by {
                assert(s.subrange(i, i + a.len())[j] == s[i + j]);
            }
        }
        lemma_kind_at_reads(s, i, sufs[0], i + a.len());
        assert(suffix_chain_end(s, i) == i + a.len());
    } else {
        let tail = sufs.drop_first();
        let mt = tail.map_values(|z: VersionSuffix| z.spec_str());
        let jt = joined(mt, seq!['_']);
        assert(m.drop_first() =~= mt);
        assert(w == a + seq!['_'] + jt);
        assert((a + seq!['_']).len() == a.len() + 1);
        assert(jl == a.len() + 1 + jt.len());
        assert forall|j: int| 0 <= j < a.len() implies w[j] == a[j] by {
            assert(w[j] == (a + seq!['_'])[j]);
        }
        assert(w[a.len() as int] == (a + seq!['_'])[a.len() as int]);
        assert(w[a.len() as int] == '_');
        assert(s[i + a.len()] == '_');
        assert(s.subrange(i, i + a.len()) =~= a) by {
            assert forall|j: int| 0 <= j < a.len() implies s.subrange(i, i + a.len())[j] == a[j] by {
                assert(s.subrange(i, i + a.len())[j] == s[i + j]);
            }
        }
        lemma_kind_at_reads(s, i, sufs[0], i + a.len());
        let i2 = i + a.len() + 1;
        assert forall|k: int| 0 <= k < tail.len() implies (#[trigger] tail[k]).wf() by {
            assert(tail[k] == sufs[k + 1]);
        }
        assert(s.subrange(i2, i2 + jt.len()) =~= jt) by {
            assert forall|j: int| 0 <= j < jt.len() implies s.subrange(i2, i2 + jt.len())[j]
                == jt[j] by {
                assert(s.subrange(i2, i2 + jt.len())[j] == s[i2 + j]);
                assert(s[i2 + j] == w[a.len() + 1 + j]);
                assert(w[a.len() + 1 + j] == jt[j]);
            }
        }
        lemma_suffix_scan(s, i2, tail);
        assert(suffix_chain_end(s, i) == suffix_chain_end(s, i2));
        assert(suffix_chain_end(s, i2) == i + jl);
    }
}

/// The greedy mirror accepts every canonical version text that ends the
/// input: parsing the rendered form of a well-formed version laid out at `i`
/// at the end of `s` consumes exactly through the end. In particular, with
/// `s` the rendered text itself and `i == 0`, parsing a rendered version
/// consumes exactly that text; together with
/// [`crate::atom::lemma_version_str_unique`], re-parsing a rendered version
/// yields the version itself.
#[verifier::rlimit(100)]
#[verifier::spinoff_prover]
pub proof fn lemma_version_render_parses(s: Seq<char>, i: int, v: &Version)
    requires
        v.wf(),
        0 <= i,
        i + v.spec_str().len() == s.len(),
        s.subrange(i, s.len() as int) == v.spec_str(),
    ensures
        version_end(s, i) == Some(s.len() as int),
{
    let w = v.spec_str();
    assert forall|j: int| 0 <= j < w.len() implies s[i + j] == w[j] by {
        assert(s.subrange(i, s.len() as int)[j] == s[i + j]);
    }
    let np = v.numbers@.map_values(|x: VersionNumber| x@);
    let a = joined(np, seq!['.']);
    let l = match v.letter {
        Some(c) => seq![c],
        None => Seq::<char>::empty(),
    };
    let sp = if v.suffixes.len() > 0 {
        seq!['_'] + joined(v.suffixes@.map_values(|x: VersionSuffix| x.spec_str()), seq!['_'])
    } else {
        Seq::<char>::empty()
    };
    let rp = match v.revision {
        Some(d) => seq!['-', 'r'] + d@,
        None => Seq::<char>::empty(),
    };
    let la = a.len() as int;
    let ll = l.len() as int;
    let ls = sp.len() as int;
    let lr = rp.len() as int;
    assert(w == a + l + sp + rp);
    assert(w.len() == la + ll + ls + lr);
    assert forall|j: int| 0 <= j < la implies w[j] == a[j] by {
        assert(w[j] == ((a + l) + sp + rp)[j]);
    }
    assert forall|j: int| 0 <= j < ll implies w[la + j] == l[j] by {
        assert(w[la + j] == ((a + l) + sp + rp)[la + j]);
    }
    assert forall|j: int| 0 <= j < ls implies w[la + ll + j] == sp[j] by {
        assert(w[la + ll + j] == ((a + l) + sp + rp)[la + ll + j]);
    }
    assert forall|j: int| 0 <= j < lr implies w[la + ll + ls + j] == rp[j] by {
        assert(w[la + ll + ls + j] == ((a + l) + sp + rp)[la + ll + ls + j]);
    }
    assert forall|k: int| 0 <= k < np.len() implies vnum_ok(#[trigger] np[k]) by {
        assert(np[k] == v.numbers@[k]@);
    }
    // Numbers: the character after them is a letter, `_`, `-`, or nothing.
    assert(s.subrange(i, i + la) =~= a) by {
        assert forall|j: int| 0 <= j < la implies s.subrange(i, i + la)[j] == a[j] by {
            assert(s.subrange(i, i + la)[j] == s[i + j]);
        }
    }
    if ll > 0 {
        assert(s[i + la] == l[0]);
        assert(is_lower(s[i + la]));
    } else if ls > 0 {
        assert(s[i + la] == sp[0]);
        assert(sp[0] == '_');
    } else if lr > 0 {
        assert(s[i + la] == rp[0]);
        assert(rp[0] == '-');
    }
    lemma_numbers_scan(s, i, np);
    let e1 = numbers_more_end(s, run_end(s, i, digit_pred()));
    assert(e1 == i + la);
    // Letter.
    let e2 = if e1 < s.len() && is_lower(s[e1]) {
        e1 + 1
    } else {
        e1
    };
    assert(e2 == i + la + ll);
    // Suffixes: the character after them is `-` or nothing.
    if ls > 0 {
        let jm = joined(v.suffixes@.map_values(|x: VersionSuffix| x.spec_str()), seq!['_']);
        assert(sp == seq!['_'] + jm);
        assert(ls == 1 + jm.len());
        assert(s[e2] == sp[0]);
        assert(sp[0] == '_');
        assert forall|j: int| 0 <= j < jm.len() implies s[e2 + 1 + j] == jm[j] by {
            assert(s[i + la + ll + (j + 1)] == w[la + ll + (j + 1)]);
            assert(w[la + ll + (j + 1)] == sp[j + 1]);
            assert(sp[j + 1] == (seq!['_'] + jm)[j + 1]);
        }
        assert(s.subrange(e2 + 1, e2 + 1 + jm.len()) =~= jm) by {
            assert forall|j: int| 0 <= j < jm.len() implies s.subrange(e2 + 1, e2 + 1 + jm.len())[j]
                == jm[j] by {
                assert(s.subrange(e2 + 1, e2 + 1 + jm.len())[j] == s[e2 + 1 + j]);
            }
        }
        if lr > 0 {
            assert(s[e2 + 1 + jm.len()] == rp[0]);
            assert(rp[0] == '-');
        }
        lemma_suffix_scan(s, e2 + 1, v.suffixes@);
        assert(suffix_chain_end(s, e2 + 1) == i + la + ll + ls);
    } else {
        if e2 < s.len() {
            assert(s[e2] == rp[0]);
            assert(rp[0] == '-');
        }
    }
    let e3 = if e2 < s.len() && s[e2] == '_' && suffix_kind_at(s, e2 + 1) is Some {
        suffix_chain_end(s, e2 + 1)
    } else {
        e2
    };
    assert(e3 == i + la + ll + ls);
    // Revision: digits to the end of the text.
    if lr > 0 {
        let d = match v.revision {
            Some(x) => x@,
            None => Seq::<char>::empty(),
        };
        assert(rp == seq!['-', 'r'] + d);
        assert(lr == 2 + d.len());
        assert(s[e3] == rp[0]);
        assert(s[e3 + 1] == rp[1]);
        assert(rp[0] == '-');
        assert(rp[1] == 'r');
        assert forall|j: int| e3 + 2 <= j < s.len() implies digit_pred()(#[trigger] s[j]) by {
            assert(s[j] == w[j - i]);
            assert(w[j - i] == rp[j - e3]);
            assert(rp[j - e3] == (seq!['-', 'r'] + d)[j - e3]);
            assert(d[j - e3 - 2] == (seq!['-', 'r'] + d)[j - e3]);
        }
        assert(is_digit(s[e3 + 2]));
        assert(rev_at(s, e3));
        lemma_run_end_is(s, e3 + 2, s.len() as int, digit_pred());
        assert(run_end(s, e3 + 2, digit_pred()) == s.len());
    } else {
        assert(e3 == s.len());
        assert(!rev_at(s, e3));
    }
    assert(version_end(s, i) == Some(s.len() as int));
}

} // verus!
