//! Parser for the newline-delimited contents format: `obj`, `dir`, and `sym`
//! records whose path fields may contain spaces and are delimited only by
//! lookahead to the next fixed-format suffix.

use vstd::prelude::*;

use crate::parser_utils::{
    digit, digit_pred, hex, is_digit, is_hex, lemma_run_end, run_end, scan_digits, ParseError,
};
use crate::vdb::{md5_ok, Content, ContentModel, Dir, DirModel, Obj, ObjModel, Sym, SymModel};

verus! {

/// A failure of the contents parser.
#[derive(Clone, Copy, Debug, PartialEq, Eq)]
pub enum Error {
    /// The input does not match the record grammar at the given offset.
    Failure(usize),
    /// The input ended where more characters could complete a record.
    Incomplete,
}

/// The numeric value of a run of decimal digits.
pub open spec fn digits_val(t: Seq<char>) -> nat
    decreases t.len(),
{
    if t.len() == 0 {
        0
    } else {
        digits_val(t.drop_last()) * 10 + (t.last() as int - '0' as int) as nat
    }
}

/// A digit run's value never shrinks as the run extends to the right.
pub proof fn lemma_digits_val_extend(t: Seq<char>, i: int)
    requires
        0 <= i <= t.len(),
        forall|j: int| 0 <= j < t.len() ==> is_digit(#[trigger] t[j]),
    ensures
        digits_val(t) >= digits_val(t.subrange(0, i)),
    decreases t.len() - i,
{
    if i < t.len() {
        assert(t.subrange(0, i + 1).drop_last() =~= t.subrange(0, i));
        assert(digits_val(t.subrange(0, i + 1)) >= digits_val(t.subrange(0, i)));
        lemma_digits_val_extend(t, i + 1);
    } else {
        assert(t.subrange(0, i) =~= t);
    }
}

/// Parses the digit run `[a, b)` of `s` as a `u64`, failing exactly when the
/// value does not fit.
fn parse_u64(s: &str, a: usize, b: usize) -> (r: Option<u64>)
    requires
        a <= b <= s@.len(),
        forall|j: int| a <= j < b ==> is_digit(#[trigger] s@[j]),
    ensures
        (r is Some) == (digits_val(s@.subrange(a as int, b as int)) <= u64::MAX),
        r matches Some(v) ==> v as nat == digits_val(s@.subrange(a as int, b as int)),
{
    let mut acc: u64 = 0;
    let mut i = a;
    proof {
        assert(s@.subrange(a as int, a as int) =~= Seq::<char>::empty());
    }
    while i < b
        invariant
            a <= i <= b <= s@.len(),
            forall|j: int| a <= j < b ==> is_digit(#[trigger] s@[j]),
            acc as nat == digits_val(s@.subrange(a as int, i as int)),
        decreases b - i,
    {
        let c = s.get_char(i);
        let d: u64 = ((c as u32) - 48) as u64;
        proof {
            assert(s@.subrange(a as int, i as int + 1).drop_last() =~= s@.subrange(
                a as int,
                i as int,
            ));
            assert(s@.subrange(a as int, i as int + 1).last() == s@[i as int]);
        }
        if acc > 1844674407370955161u64 || (acc == 1844674407370955161u64 && d > 5) {
            proof {
                assert(digits_val(s@.subrange(a as int, i as int + 1)) > u64::MAX);
                let t = s@.subrange(a as int, b as int);
                assert(t.subrange(0, i + 1 - a) =~= s@.subrange(a as int, i as int + 1));
                assert forall|j: int| 0 <= j < t.len() implies is_digit(#[trigger] t[j]) by {
                    assert(t[j] == s@[a + j]);
                }
                lemma_digits_val_extend(t, i + 1 - a);
            }
            return None;
        }
        acc = acc * 10 + d;
        i = i + 1;
    }
    proof {
        assert(s@.subrange(a as int, b as int) == s@.subrange(a as int, i as int));
    }
    Some(acc)
}

// ---------------------------------------------------------------------------
// Spec-level mirrors of the lookahead patterns
// ---------------------------------------------------------------------------

/// `obj ` stands at `i`.
pub open spec fn obj_lead_at(s: Seq<char>, i: int) -> bool {
    &&& 0 <= i
    &&& i + 4 <= s.len()
    &&& s[i] == 'o'
    &&& s[i + 1] == 'b'
    &&& s[i + 2] == 'j'
    &&& s[i + 3] == ' '
}

/// `dir ` stands at `i`.
pub open spec fn dir_lead_at(s: Seq<char>, i: int) -> bool {
    &&& 0 <= i
    &&& i + 4 <= s.len()
    &&& s[i] == 'd'
    &&& s[i + 1] == 'i'
    &&& s[i + 2] == 'r'
    &&& s[i + 3] == ' '
}

/// `sym ` stands at `i`.
pub open spec fn sym_lead_at(s: Seq<char>, i: int) -> bool {
    &&& 0 <= i
    &&& i + 4 <= s.len()
    &&& s[i] == 's'
    &&& s[i + 1] == 'y'
    &&& s[i + 2] == 'm'
    &&& s[i + 3] == ' '
}

/// The suffix ending an `obj` record's path stands at `q`: a space, 32
/// hexadecimal digits, a space, a digit run whose value fits a `u64`, and a
/// newline.
pub open spec fn obj_pat_at(s: Seq<char>, q: int) -> bool {
    &&& 0 <= q
    &&& q + 34 < s.len()
    &&& s[q] == ' '
    &&& (forall|j: int| q + 1 <= j < q + 33 ==> is_hex(#[trigger] s[j]))
    &&& s[q + 33] == ' '
    &&& is_digit(s[q + 34])
    &&& {
        let d = run_end(s, q + 34, digit_pred());
        &&& d < s.len()
        &&& s[d] == '\n'
        &&& digits_val(s.subrange(q + 34, d)) <= u64::MAX
    }
}

/// The first offset at or after `q` where an `obj` record's suffix pattern
/// matches.
pub open spec fn obj_path_end(s: Seq<char>, q: int) -> Option<int>
    decreases s.len() - q,
{
    if !(0 <= q <= s.len()) {
        None
    } else if obj_pat_at(s, q) {
        Some(q)
    } else if q >= s.len() {
        None
    } else {
        obj_path_end(s, q + 1)
    }
}

/// The first newline at or after `q`.
pub open spec fn find_nl(s: Seq<char>, q: int) -> Option<int>
    decreases s.len() - q,
{
    if !(0 <= q < s.len()) {
        None
    } else if s[q] == '\n' {
        Some(q)
    } else {
        find_nl(s, q + 1)
    }
}

/// The suffix ending a `sym` record's destination stands at `r`: a space, a
/// digit run whose value fits a `u64`, and a newline.
pub open spec fn sym_tail_at(s: Seq<char>, r: int) -> bool {
    &&& 0 <= r
    &&& r + 1 < s.len()
    &&& s[r] == ' '
    &&& is_digit(s[r + 1])
    &&& {
        let d = run_end(s, r + 1, digit_pred());
        &&& d < s.len()
        &&& s[d] == '\n'
        &&& digits_val(s.subrange(r + 1, d)) <= u64::MAX
    }
}

/// The first offset at or after `r` where a `sym` record's tail pattern
/// matches.
pub open spec fn sym_dest_end(s: Seq<char>, r: int) -> Option<int>
    decreases s.len() - r,
{
    if !(0 <= r <= s.len()) {
        None
    } else if sym_tail_at(s, r) {
        Some(r)
    } else if r >= s.len() {
        None
    } else {
        sym_dest_end(s, r + 1)
    }
}

/// The ` -> ` arrow followed by a well-delimited destination stands at `q`.
pub open spec fn sym_pat_at(s: Seq<char>, q: int) -> bool {
    &&& 0 <= q
    &&& q + 4 <= s.len()
    &&& s[q] == ' '
    &&& s[q + 1] == '-'
    &&& s[q + 2] == '>'
    &&& s[q + 3] == ' '
    &&& sym_dest_end(s, q + 4) is Some
}

/// The first offset at or after `q` where a `sym` record's arrow pattern
/// matches.
pub open spec fn sym_src_end(s: Seq<char>, q: int) -> Option<int>
    decreases s.len() - q,
{
    if !(0 <= q <= s.len()) {
        None
    } else if sym_pat_at(s, q) {
        Some(q)
    } else if q >= s.len() {
        None
    } else {
        sym_src_end(s, q + 1)
    }
}

// ---------------------------------------------------------------------------
// Executable pattern checks
// ---------------------------------------------------------------------------

/// Decides whether an `obj` record's suffix pattern matches at `q`.
fn obj_pat_check(s: &str, q: usize) -> (r: bool)
    requires
        q <= s@.len(),
    ensures
        r == obj_pat_at(s@, q as int),
{
    let n0 = s.unicode_len();
    if !(n0 - q >= 35 && s.get_char(q) == ' ') {
        return false;
    }
    let mut j = q + 1;
    while j < q + 33
        invariant
            q + 1 <= j <= q + 33,
            q + 35 <= n0 == s@.len(),
            forall|k: int| q + 1 <= k < j ==> is_hex(#[trigger] s@[k]),
        decreases q + 33 - j,
    {
        if !hex(s.get_char(j)) {
            return false;
        }
        j = j + 1;
    }
    if !(s.get_char(q + 33) == ' ' && digit(s.get_char(q + 34))) {
        return false;
    }
    proof {
        lemma_run_end(s@, q as int + 34, digit_pred());
    }
    let d = scan_digits(s, q + 34);
    if !(d < n0 && s.get_char(d) == '\n') {
        return false;
    }
    match parse_u64(s, q + 34, d) {
        Some(_) => true,
        None => false,
    }
}

/// Decides whether a `sym` record's tail pattern matches at `r`.
fn sym_tail_check(s: &str, r: usize) -> (res: bool)
    requires
        r <= s@.len(),
    ensures
        res == sym_tail_at(s@, r as int),
{
    let n0 = s.unicode_len();
    if !(n0 - r >= 2 && s.get_char(r) == ' ' && digit(s.get_char(r + 1))) {
        return false;
    }
    proof {
        lemma_run_end(s@, r as int + 1, digit_pred());
    }
    let d = scan_digits(s, r + 1);
    if !(d < n0 && s.get_char(d) == '\n') {
        return false;
    }
    match parse_u64(s, r + 1, d) {
        Some(_) => true,
        None => false,
    }
}

/// Finds the first offset at or after `r` where a `sym` record's tail
/// pattern matches.
fn sym_dest_scan(s: &str, r: usize) -> (res: Option<usize>)
    requires
        r <= s@.len(),
    ensures
        (res is Some) == (sym_dest_end(s@, r as int) is Some),
        res matches Some(x) ==> sym_dest_end(s@, r as int) == Some(x as int) && r <= x
            < s@.len() && sym_tail_at(s@, x as int),
{
    let n0 = s.unicode_len();
    let mut q = r;
    while !sym_tail_check(s, q)
        invariant
            r <= q <= n0,
            n0 == s@.len(),
            sym_dest_end(s@, r as int) == sym_dest_end(s@, q as int),
        decreases n0 - q,
    {
        if q == n0 {
            return None;
        }
        proof {
            assert(sym_dest_end(s@, q as int) == sym_dest_end(s@, q as int + 1));
        }
        q = q + 1;
    }
    Some(q)
}

/// Decides whether a `sym` record's arrow pattern matches at `q`.
fn sym_pat_check(s: &str, q: usize) -> (res: bool)
    requires
        q <= s@.len(),
    ensures
        res == sym_pat_at(s@, q as int),
{
    let n0 = s.unicode_len();
    if !(n0 - q >= 4 && s.get_char(q) == ' ' && s.get_char(q + 1) == '-' && s.get_char(q + 2)
        == '>' && s.get_char(q + 3) == ' ') {
        return false;
    }
    sym_dest_scan(s, q + 4).is_some()
}

// ---------------------------------------------------------------------------
// Record parsers
// ---------------------------------------------------------------------------

/// Parses an `obj` record starting at `pos`: `obj <path> <md5> <size>` and a
/// newline, the path delimited by lookahead to the first matching suffix.
#[verifier::rlimit(60)]
fn obj_at(s: &str, pos: usize) -> (r: Result<(Obj, usize), ParseError>)
    requires
        pos <= s@.len(),
    ensures
        r is Ok <==> obj_lead_at(s@, pos as int) && obj_path_end(s@, pos as int + 4) is Some,
        r matches Ok((o, n)) ==> {
            let q = obj_path_end(s@, pos as int + 4).unwrap();
            let d = run_end(s@, q + 34, digit_pred());
            &&& o.path@ == s@.subrange(pos as int + 4, q)
            &&& o.md5@ == s@.subrange(q + 1, q + 33)
            &&& o.size as nat == digits_val(s@.subrange(q + 34, d))
            &&& n == d + 1
            &&& pos < n <= s@.len()
            &&& o.wf()
        },
{
    let n0 = s.unicode_len();
    if !(n0 - pos >= 4 && s.get_char(pos) == 'o' && s.get_char(pos + 1) == 'b' && s.get_char(
        pos + 2,
    ) == 'j' && s.get_char(pos + 3) == ' ') {
        return Err(ParseError::Fail(pos));
    }
    let mut q = pos + 4;
    while !obj_pat_check(s, q)
        invariant
            pos + 4 <= q <= n0,
            n0 == s@.len(),
            obj_path_end(s@, pos as int + 4) == obj_path_end(s@, q as int),
        decreases n0 - q,
    {
        if q == n0 {
            return Err(ParseError::Fail(pos));
        }
        proof {
            assert(obj_path_end(s@, q as int) == obj_path_end(s@, q as int + 1));
        }
        q = q + 1;
    }
    let path = s.substring_char(pos + 4, q).to_owned();
    let md5 = s.substring_char(q + 1, q + 33).to_owned();
    proof {
        lemma_run_end(s@, q as int + 34, digit_pred());
        assert forall|j: int| 0 <= j < 32 implies is_hex(
            #[trigger] s@.subrange(q as int + 1, q as int + 33)[j],
        ) by {
            assert(s@.subrange(q as int + 1, q as int + 33)[j] == s@[q + 1 + j]);
        }
    }
    let d = scan_digits(s, q + 34);
    let size = match parse_u64(s, q + 34, d) {
        Some(v) => v,
        None => {
            return Err(ParseError::Fail(pos));
        },
    };
    Ok((Obj { path, md5, size }, d + 1))
}

/// Parses a `dir` record starting at `pos`: `dir <path>` and a newline.
fn dir_at(s: &str, pos: usize) -> (r: Result<(Dir, usize), ParseError>)
    requires
        pos <= s@.len(),
    ensures
        r is Ok <==> dir_lead_at(s@, pos as int) && find_nl(s@, pos as int + 4) is Some,
        r matches Ok((o, n)) ==> {
            let q = find_nl(s@, pos as int + 4).unwrap();
            &&& o.path@ == s@.subrange(pos as int + 4, q)
            &&& n == q + 1
            &&& pos < n <= s@.len()
        },
{
    let n0 = s.unicode_len();
    if !(n0 - pos >= 4 && s.get_char(pos) == 'd' && s.get_char(pos + 1) == 'i' && s.get_char(
        pos + 2,
    ) == 'r' && s.get_char(pos + 3) == ' ') {
        return Err(ParseError::Fail(pos));
    }
    let mut q = pos + 4;
    while !(q < n0 && s.get_char(q) == '\n')
        invariant
            pos + 4 <= q <= n0,
            n0 == s@.len(),
            find_nl(s@, pos as int + 4) == find_nl(s@, q as int),
        decreases n0 - q,
    {
        if q == n0 {
            return Err(ParseError::Fail(pos));
        }
        proof {
            assert(find_nl(s@, q as int) == find_nl(s@, q as int + 1));
        }
        q = q + 1;
    }
    let path = s.substring_char(pos + 4, q).to_owned();
    Ok((Dir { path }, q + 1))
}

/// Parses a `sym` record starting at `pos`: `sym <src> -> <dest> <size>` and
/// a newline, both paths delimited by lookahead.
#[verifier::rlimit(60)]
fn sym_at(s: &str, pos: usize) -> (r: Result<(Sym, usize), ParseError>)
    requires
        pos <= s@.len(),
    ensures
        r is Ok <==> sym_lead_at(s@, pos as int) && sym_src_end(s@, pos as int + 4) is Some,
        r matches Ok((o, n)) ==> {
            let q = sym_src_end(s@, pos as int + 4).unwrap();
            let rr = sym_dest_end(s@, q + 4).unwrap();
            let d = run_end(s@, rr + 1, digit_pred());
            &&& o.src@ == s@.subrange(pos as int + 4, q)
            &&& o.dest@ == s@.subrange(q + 4, rr)
            &&& o.size as nat == digits_val(s@.subrange(rr + 1, d))
            &&& n == d + 1
            &&& pos < n <= s@.len()
        },
{
    let n0 = s.unicode_len();
    if !(n0 - pos >= 4 && s.get_char(pos) == 's' && s.get_char(pos + 1) == 'y' && s.get_char(
        pos + 2,
    ) == 'm' && s.get_char(pos + 3) == ' ') {
        return Err(ParseError::Fail(pos));
    }
    let mut q = pos + 4;
    while !sym_pat_check(s, q)
        invariant
            pos + 4 <= q <= n0,
            n0 == s@.len(),
            sym_src_end(s@, pos as int + 4) == sym_src_end(s@, q as int),
        decreases n0 - q,
    {
        if q == n0 {
            return Err(ParseError::Fail(pos));
        }
        proof {
            assert(sym_src_end(s@, q as int) == sym_src_end(s@, q as int + 1));
        }
        q = q + 1;
    }
    let rr = match sym_dest_scan(s, q + 4) {
        Some(x) => x,
        None => {
            return Err(ParseError::Fail(pos));
        },
    };
    let src = s.substring_char(pos + 4, q).to_owned();
    let dest = s.substring_char(q + 4, rr).to_owned();
    proof {
        lemma_run_end(s@, rr as int + 1, digit_pred());
    }
    let d = scan_digits(s, rr + 1);
    let size = match parse_u64(s, rr + 1, d) {
        Some(v) => v,
        None => {
            return Err(ParseError::Fail(pos));
        },
    };
    Ok((Sym { src, dest, size }, d + 1))
}

/// Which record (if any) starts at `p`, and the offset just past its
/// newline: an `obj`, `dir`, or `sym` lead whose lookahead pattern matches.
pub open spec fn rec_end(s: Seq<char>, p: int) -> Option<int> {
    if obj_lead_at(s, p) && obj_path_end(s, p + 4) is Some {
        let q = obj_path_end(s, p + 4).unwrap();
        Some(run_end(s, q + 34, digit_pred()) + 1)
    } else if dir_lead_at(s, p) && find_nl(s, p + 4) is Some {
        Some(find_nl(s, p + 4).unwrap() + 1)
    } else if sym_lead_at(s, p) && sym_src_end(s, p + 4) is Some {
        let q = sym_src_end(s, p + 4).unwrap();
        let rr = sym_dest_end(s, q + 4).unwrap();
        Some(run_end(s, rr + 1, digit_pred()) + 1)
    } else {
        None
    }
}

/// The content of the record starting at `p`; meaningful when one does.
pub open spec fn rec_model(s: Seq<char>, p: int) -> ContentModel {
    if obj_lead_at(s, p) && obj_path_end(s, p + 4) is Some {
        let q = obj_path_end(s, p + 4).unwrap();
        let d = run_end(s, q + 34, digit_pred());
        ContentModel::Obj(
            ObjModel {
                path: s.subrange(p + 4, q),
                md5: s.subrange(q + 1, q + 33),
                size: digits_val(s.subrange(q + 34, d)),
            },
        )
    } else if dir_lead_at(s, p) && find_nl(s, p + 4) is Some {
        ContentModel::Dir(DirModel { path: s.subrange(p + 4, find_nl(s, p + 4).unwrap()) })
    } else {
        let q = sym_src_end(s, p + 4).unwrap();
        let rr = sym_dest_end(s, q + 4).unwrap();
        let d = run_end(s, rr + 1, digit_pred());
        ContentModel::Sym(
            SymModel {
                src: s.subrange(p + 4, q),
                dest: s.subrange(q + 4, rr),
                size: digits_val(s.subrange(rr + 1, d)),
            },
        )
    }
}

/// The records the greedy repetition reads from `p`, in order.
pub open spec fn contents_model(s: Seq<char>, p: int) -> Seq<ContentModel>
    decreases s.len() - p,
{
    if !(0 <= p <= s.len()) {
        Seq::<ContentModel>::empty()
    } else {
        match rec_end(s, p) {
            Some(e) => if p < e <= s.len() {
                seq![rec_model(s, p)] + contents_model(s, e)
            } else {
                Seq::<ContentModel>::empty()
            },
            None => Seq::<ContentModel>::empty(),
        }
    }
}

/// Where the greedy repetition from `p` stops.
pub open spec fn contents_end(s: Seq<char>, p: int) -> int
    decreases s.len() - p,
{
    if !(0 <= p <= s.len()) {
        p
    } else {
        match rec_end(s, p) {
            Some(e) => if p < e <= s.len() {
                contents_end(s, e)
            } else {
                p
            },
            None => p,
        }
    }
}

/// Parses as many consecutive contents records as the input offers, from the
/// start of `input`, returning the records and the offset of the first
/// unconsumed character. Like the underlying record list, this never fails:
/// it returns exactly the records the greedy repetition reads, and a
/// malformed tail is simply left unconsumed.
#[verifier::rlimit(60)]
pub fn contents(input: &str) -> (r: Result<(Vec<Content>, usize), Error>)
    ensures
        r is Ok,
        r matches Ok((v, n)) ==> {
            &&& n <= input@.len()
            &&& n == contents_end(input@, 0)
            &&& v@.map_values(|c: Content| c@) == contents_model(input@, 0)
            &&& forall|i: int| 0 <= i < v@.len() ==> (#[trigger] v@[i]).wf()
        },
{
    let n0 = input.unicode_len();
    let mut out: Vec<Content> = Vec::new();
    let mut p: usize = 0;
    proof {
        assert(out@.map_values(|c: Content| c@) + contents_model(input@, 0) =~= contents_model(
            input@,
            0,
        ));
    }
    loop
        invariant
            p <= n0,
            n0 == input@.len(),
            contents_end(input@, 0) == contents_end(input@, p as int),
            contents_model(input@, 0) == out@.map_values(|c: Content| c@) + contents_model(
                input@,
                p as int,
            ),
            forall|i: int| 0 <= i < out@.len() ==> (#[trigger] out@[i]).wf(),
        ensures
            p <= n0,
            contents_end(input@, 0) == p,
            contents_model(input@, 0) == out@.map_values(|c: Content| c@),
            forall|i: int| 0 <= i < out@.len() ==> (#[trigger] out@[i]).wf(),
        decreases n0 - p,
    {
        match obj_at(input, p) {
            Ok((o, n)) => {
                proof {
                    assert(rec_end(input@, p as int) == Some(n as int));
                    assert(rec_model(input@, p as int) == ContentModel::Obj(o@));
                }
                let ghost prev = out@.map_values(|c: Content| c@);
                out.push(Content::Obj(o));
                proof {
                    assert(out@.map_values(|c: Content| c@) =~= prev.push(
                        rec_model(input@, p as int),
                    ));
                    assert(contents_model(input@, p as int) == seq![rec_model(input@, p as int)]
                        + contents_model(input@, n as int));
                    assert(prev + contents_model(input@, p as int) =~= prev.push(
                        rec_model(input@, p as int),
                    ) + contents_model(input@, n as int));
                    assert(contents_end(input@, p as int) == contents_end(input@, n as int));
                }
                p = n;
                continue ;
            },
            Err(_) => (),
        }
        match dir_at(input, p) {
            Ok((o, n)) => {
                proof {
                    assert(rec_end(input@, p as int) == Some(n as int));
                    assert(rec_model(input@, p as int) == ContentModel::Dir(o@));
                }
                let ghost prev = out@.map_values(|c: Content| c@);
                out.push(Content::Dir(o));
                proof {
                    assert(out@.map_values(|c: Content| c@) =~= prev.push(
                        rec_model(input@, p as int),
                    ));
                    assert(contents_model(input@, p as int) == seq![rec_model(input@, p as int)]
                        + contents_model(input@, n as int));
                    assert(prev + contents_model(input@, p as int) =~= prev.push(
                        rec_model(input@, p as int),
                    ) + contents_model(input@, n as int));
                    assert(contents_end(input@, p as int) == contents_end(input@, n as int));
                }
                p = n;
                continue ;
            },
            Err(_) => (),
        }
        match sym_at(input, p) {
            Ok((o, n)) => {
                proof {
                    assert(rec_end(input@, p as int) == Some(n as int));
                    assert(rec_model(input@, p as int) == ContentModel::Sym(o@));
                }
                let ghost prev = out@.map_values(|c: Content| c@);
                out.push(Content::Sym(o));
                proof {
                    assert(out@.map_values(|c: Content| c@) =~= prev.push(
                        rec_model(input@, p as int),
                    ));
                    assert(contents_model(input@, p as int) == seq![rec_model(input@, p as int)]
                        + contents_model(input@, n as int));
                    assert(prev + contents_model(input@, p as int) =~= prev.push(
                        rec_model(input@, p as int),
                    ) + contents_model(input@, n as int));
                    assert(contents_end(input@, p as int) == contents_end(input@, n as int));
                }
                p = n;
                continue ;
            },
            Err(_) => (),
        }
        proof {
            assert(rec_end(input@, p as int) is None);
            assert(contents_model(input@, p as int) =~= Seq::<ContentModel>::empty());
            assert(contents_model(input@, 0) =~= out@.map_values(|c: Content| c@));
        }
        break ;
    }
    Ok((out, p))
}

} // verus!
