//! USE-flag identifiers and USE-dependency annotations.
//!
//! A USE dependency is written `[-|!] flag [(+)|(-)] [=|?]`: an optional
//! negation marker, the flag, an optional default-sign marker, and an
//! optional conditional operator, in that fixed order.

pub mod parsers;

use vstd::prelude::*;

use crate::parser_utils::{
    flag_pred, is_alnum, is_flag_char, lemma_concat_assoc, lemma_concat_cancel,
    lemma_run_boundary, push_char,
};

verus! {

/// A validated USE-flag identifier: an ASCII letter or digit followed by
/// letters, digits, `+`, `_`, `@`, or `-`.
#[derive(Clone, Debug)]
pub struct UseFlag(pub String);

/// The negation marker of a USE dependency: `-` (build without the flag) or
/// `!` (the flag must be absent).
#[derive(Clone, Copy, Debug)]
pub enum Negate {
    Minus,
    Exclamation,
}

/// The default-sign marker of a USE dependency: `(+)` or `(-)`.
#[derive(Clone, Copy, Debug)]
pub enum Sign {
    Plus,
    Minus,
}

/// The trailing conditional operator of a USE dependency: `=` or `?`.
#[derive(Clone, Copy, Debug)]
pub enum Operator {
    Equal,
    Question,
}

/// A USE dependency: optional negation, flag, optional default sign, optional
/// conditional operator.
#[derive(Clone, Debug)]
pub struct UseDep(
    pub Option<Negate>,
    pub UseFlag,
    pub Option<Sign>,
    pub Option<Operator>,
);

/// A sequence of characters forms a valid USE-flag identifier.
pub open spec fn flag_ok(t: Seq<char>) -> bool {
    &&& t.len() >= 1
    &&& is_alnum(t[0])
    &&& forall|j: int| 0 <= j < t.len() ==> is_flag_char(#[trigger] t[j])
}

impl View for UseFlag {
    type V = Seq<char>;

    open spec fn view(&self) -> Seq<char> {
        self.0@
    }
}

impl UseFlag {
    /// The identifier is well formed.
    pub open spec fn wf(&self) -> bool {
        flag_ok(self@)
    }

    /// The flag's text.
    pub fn get(&self) -> (r: &str)
        ensures
            r@ == self@,
    {
        self.0.as_str()
    }
}

/// The canonical text of a negation marker.
pub open spec fn negate_str(n: Negate) -> Seq<char> {
    match n {
        Negate::Minus => seq!['-'],
        Negate::Exclamation => seq!['!'],
    }
}

/// The canonical text of a default-sign marker.
pub open spec fn sign_str(g: Sign) -> Seq<char> {
    match g {
        Sign::Plus => seq!['(', '+', ')'],
        Sign::Minus => seq!['(', '-', ')'],
    }
}

/// The canonical text of a conditional operator.
pub open spec fn operator_str(o: Operator) -> Seq<char> {
    match o {
        Operator::Equal => seq!['='],
        Operator::Question => seq!['?'],
    }
}

/// The canonical text of an optional negation marker.
pub open spec fn opt_negate_str(x: Option<Negate>) -> Seq<char> {
    match x {
        Some(n) => negate_str(n),
        None => Seq::<char>::empty(),
    }
}

/// The canonical text of an optional default-sign marker.
pub open spec fn opt_sign_str(x: Option<Sign>) -> Seq<char> {
    match x {
        Some(g) => sign_str(g),
        None => Seq::<char>::empty(),
    }
}

/// The canonical text of an optional conditional operator.
pub open spec fn opt_operator_str(x: Option<Operator>) -> Seq<char> {
    match x {
        Some(o) => operator_str(o),
        None => Seq::<char>::empty(),
    }
}

impl UseDep {
    /// All parts of the dependency are well formed.
    pub open spec fn wf(&self) -> bool {
        self.1.wf()
    }

    /// The canonical text of the dependency: negation, flag, default sign,
    /// conditional operator, with no separators.
    pub open spec fn spec_str(&self) -> Seq<char> {
        opt_negate_str(self.0) + self.1@ + opt_sign_str(self.2) + opt_operator_str(self.3)
    }

    /// The negation marker, if any.
    pub fn negate(&self) -> (r: Option<Negate>)
        ensures
            r == self.0,
    {
        self.0
    }

    /// The flag.
    pub fn useflag(&self) -> (r: &UseFlag)
        ensures
            r == self.1,
    {
        &self.1
    }

    /// The default-sign marker, if any.
    pub fn sign(&self) -> (r: Option<Sign>)
        ensures
            r == self.2,
    {
        self.2
    }

    /// The conditional operator, if any.
    pub fn operator(&self) -> (r: Option<Operator>)
        ensures
            r == self.3,
    {
        self.3
    }

    /// Renders the dependency in canonical form.
    pub fn render(&self) -> (r: String)
        ensures
            r@ == self.spec_str(),
    {
        let mut out = String::new();
        match self.0 {
            Some(Negate::Minus) => push_char(&mut out, '-'),
            Some(Negate::Exclamation) => push_char(&mut out, '!'),
            None => (),
        }
        out.append(self.1.get());
        match self.2 {
            Some(Sign::Plus) => {
                push_char(&mut out, '(');
                push_char(&mut out, '+');
                push_char(&mut out, ')');
            },
            Some(Sign::Minus) => {
                push_char(&mut out, '(');
                push_char(&mut out, '-');
                push_char(&mut out, ')');
            },
            None => (),
        }
        match self.3 {
            Some(Operator::Equal) => push_char(&mut out, '='),
            Some(Operator::Question) => push_char(&mut out, '?'),
            None => (),
        }
        proof {
            assert(out@ =~= self.spec_str());
        }
        out
    }
}

/// The pure content of a USE dependency, for stating laws.
pub ghost struct UseDepModel {
    pub negate: Option<Negate>,
    pub flag: Seq<char>,
    pub sign: Option<Sign>,
    pub operator: Option<Operator>,
}

impl View for UseDep {
    type V = UseDepModel;

    open spec fn view(&self) -> UseDepModel {
        UseDepModel { negate: self.0, flag: self.1@, sign: self.2, operator: self.3 }
    }
}

/// A character that can follow a USE dependency inside a bracketed list or
/// at its end: never one that could extend the dependency itself.
pub open spec fn usedep_stop(c: char) -> bool {
    !is_flag_char(c) && c != '(' && c != '=' && c != '?'
}

/// The sign-and-operator tail of a USE dependency's canonical text is
/// unambiguous, also before a remainder that starts with a stopping
/// character.
proof fn lemma_usedep_tail_unique(
    a1: Option<Sign>,
    o1: Option<Operator>,
    x: Seq<char>,
    a2: Option<Sign>,
    o2: Option<Operator>,
    y: Seq<char>,
)
    requires
        opt_sign_str(a1) + opt_operator_str(o1) + x == opt_sign_str(a2) + opt_operator_str(o2) + y,
        x.len() == 0 || usedep_stop(x[0]),
        y.len() == 0 || usedep_stop(y[0]),
    ensures
        a1 == a2,
        o1 == o2,
        x == y,
{
    let g1 = opt_sign_str(a1);
    let g2 = opt_sign_str(a2);
    let p1 = opt_operator_str(o1);
    let p2 = opt_operator_str(o2);
    let t = g1 + p1 + x;
    assert(t.len() == g1.len() + p1.len() + x.len());
    assert(t.len() == g2.len() + p2.len() + y.len());
    if g1.len() > 0 {
        assert(t[0] == g1[0]);
    } else if p1.len() > 0 {
        assert(t[0] == p1[0]);
    } else if x.len() > 0 {
        assert(t[0] == x[0]);
    }
    if g2.len() > 0 {
        assert(t[0] == g2[0]);
    } else if p2.len() > 0 {
        assert(t[0] == p2[0]);
    } else if y.len() > 0 {
        assert(t[0] == y[0]);
    }
    match (a1, a2) {
        (Some(Sign::Plus), Some(Sign::Plus)) => (),
        (Some(Sign::Minus), Some(Sign::Minus)) => (),
        (None, None) => (),
        (Some(Sign::Plus), Some(Sign::Minus)) => {
            assert(t[1] == g1[1]);
            assert(t[1] == g2[1]);
            assert(false);
        },
        (Some(Sign::Minus), Some(Sign::Plus)) => {
            assert(t[1] == g1[1]);
            assert(t[1] == g2[1]);
            assert(false);
        },
        (Some(_), None) => {
            assert(t[0] == '(');
            assert(false);
        },
        (None, Some(_)) => {
            assert(t[0] == '(');
            assert(false);
        },
    }
    assert(g1 == g2);
    assert(g1 + (p1 + x) =~= g1 + p1 + x);
    assert(g2 + (p2 + y) =~= g2 + p2 + y);
    lemma_concat_cancel(g1, p1 + x, p2 + y);
    let w = p1 + x;
    assert(w.len() == p1.len() + x.len());
    assert(w.len() == p2.len() + y.len());
    if p1.len() > 0 {
        assert(w[0] == p1[0]);
    } else if x.len() > 0 {
        assert(w[0] == x[0]);
    }
    if p2.len() > 0 {
        assert(w[0] == p2[0]);
    } else if y.len() > 0 {
        assert(w[0] == y[0]);
    }
    match (o1, o2) {
        (Some(Operator::Equal), Some(Operator::Equal)) => (),
        (Some(Operator::Question), Some(Operator::Question)) => (),
        (None, None) => (),
        _ => {
            assert(false);
        },
    }
    assert(p1 == p2);
    lemma_concat_cancel(p1, x, y);
}

/// The remainder after a USE dependency's flag (its sign, operator, and
/// whatever follows the dependency) never starts with a flag character.
proof fn lemma_usedep_rest_head(g: Option<Sign>, o: Option<Operator>, x: Seq<char>)
    requires
        x.len() == 0 || usedep_stop(x[0]),
    ensures
        (opt_sign_str(g) + opt_operator_str(o) + x).len() == 0 || !is_flag_char(
            (opt_sign_str(g) + opt_operator_str(o) + x)[0],
        ),
{
    let gs = opt_sign_str(g);
    let ps = opt_operator_str(o);
    let r = gs + ps + x;
    assert(r.len() == gs.len() + ps.len() + x.len());
    if gs.len() > 0 {
        assert(r[0] == gs[0]);
        assert(gs[0] == '(');
    } else if ps.len() > 0 {
        assert(r[0] == ps[0]);
        assert(ps[0] == '=' || ps[0] == '?');
    } else if x.len() > 0 {
        assert(r[0] == x[0]);
    }
}

/// Canonical USE-dependency text is unambiguous even before a remainder
/// that starts with a stopping character (a list comma or closing bracket).
#[verifier::rlimit(100)]
#[verifier::spinoff_prover]
pub(crate) proof fn lemma_usedep_tailed_unique(d1: &UseDep, x: Seq<char>, d2: &UseDep, y: Seq<char>)
    requires
        d1.wf(),
        d2.wf(),
        d1.spec_str() + x == d2.spec_str() + y,
        x.len() == 0 || usedep_stop(x[0]),
        y.len() == 0 || usedep_stop(y[0]),
    ensures
        d1@ == d2@,
        x == y,
{
    let n1 = opt_negate_str(d1.0);
    let n2 = opt_negate_str(d2.0);
    let f1 = d1.1@;
    let f2 = d2.1@;
    let r1 = opt_sign_str(d1.2) + opt_operator_str(d1.3) + x;
    let r2 = opt_sign_str(d2.2) + opt_operator_str(d2.3) + y;
    let g1 = opt_sign_str(d1.2);
    let o1 = opt_operator_str(d1.3);
    let g2 = opt_sign_str(d2.2);
    let o2 = opt_operator_str(d2.3);
    let t = d1.spec_str() + x;
    assert(t == n1 + (f1 + r1)) by {
        lemma_concat_assoc(n1, f1, g1);
        lemma_concat_assoc(n1, f1 + g1, o1);
        lemma_concat_assoc(n1, (f1 + g1) + o1, x);
        lemma_concat_assoc(f1, g1, o1);
        lemma_concat_assoc(f1, g1 + o1, x);
        lemma_concat_assoc(g1, o1, x);
    }
    assert(t == n2 + (f2 + r2)) by {
        lemma_concat_assoc(n2, f2, g2);
        lemma_concat_assoc(n2, f2 + g2, o2);
        lemma_concat_assoc(n2, (f2 + g2) + o2, y);
        lemma_concat_assoc(f2, g2, o2);
        lemma_concat_assoc(f2, g2 + o2, y);
        lemma_concat_assoc(g2, o2, y);
    }
    assert((f1 + r1)[0] == f1[0]);
    assert((f2 + r2)[0] == f2[0]);
    assert(t[0] == if n1.len() > 0 {
        n1[0]
    } else {
        f1[0]
    });
    assert(t[0] == if n2.len() > 0 {
        n2[0]
    } else {
        f2[0]
    });
    match (d1.0, d2.0) {
        (Some(Negate::Minus), Some(Negate::Minus)) => (),
        (Some(Negate::Exclamation), Some(Negate::Exclamation)) => (),
        (None, None) => (),
        _ => {
            assert(false);
        },
    }
    assert(n1 == n2);
    lemma_concat_cancel(n1, f1 + r1, f2 + r2);
    lemma_usedep_rest_head(d1.2, d1.3, x);
    lemma_usedep_rest_head(d2.2, d2.3, y);
    lemma_run_boundary(f1, r1, f2, r2, flag_pred());
    lemma_usedep_tail_unique(d1.2, d1.3, x, d2.2, d2.3, y);
}

/// Canonical USE-dependency text is unambiguous: two well-formed
/// dependencies that render to the same text have the same content. Together
/// with the parsers' guarantee that the text they consume is the canonical
/// text of the value they return, re-parsing a rendered dependency can only
/// yield the dependency itself.
pub proof fn lemma_usedep_str_unique(d1: &UseDep, d2: &UseDep)
    requires
        d1.wf(),
        d2.wf(),
        d1.spec_str() == d2.spec_str(),
    ensures
        d1@ == d2@,
{
    assert(d1.spec_str() + Seq::<char>::empty() =~= d1.spec_str());
    assert(d2.spec_str() + Seq::<char>::empty() =~= d2.spec_str());
    lemma_usedep_tailed_unique(d1, Seq::<char>::empty(), d2, Seq::<char>::empty());
}

} // verus!
