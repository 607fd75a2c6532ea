//! Package atoms and their parts: blockers, version operators, categories,
//! names, versions, slots.
//!
//! Every part carries a well-formedness predicate describing the alphabet the
//! grammar admits, and a canonical-text spec (`spec_str`) that the renderers
//! and parsers are both held to: a parser consumes exactly the canonical text
//! of the value it returns.

pub mod parsers;

use vstd::prelude::*;

use crate::parser_utils::{
    digit_pred, is_alnum, is_digit, is_lower, is_word_char, is_word_start, lemma_concat_cancel,
    lemma_run_boundary, push_char, word_pred,
};
use crate::useflag::{lemma_usedep_tailed_unique, usedep_stop, UseDep, UseDepModel};

verus! {

/// A blocker marker: the atom must not be installed. Weak (`!`) blockers may
/// coexist until removal; strong (`!!`) blockers may never coexist.
#[derive(Clone, Copy, Debug, PartialEq, Eq, Structural)]
pub enum Blocker {
    Weak,
    Strong,
}

/// A constraint operator applied to the atom's version.
#[derive(Clone, Copy, Debug, PartialEq, Eq, Structural)]
pub enum VersionOperator {
    Eq,
    Lt,
    LtEq,
    Gt,
    GtEq,
    Roughly,
}

/// A validated category identifier.
#[derive(Clone, Debug, PartialEq, Eq)]
pub struct Category(pub String);

/// A validated package name.
#[derive(Clone, Debug, PartialEq, Eq)]
pub struct Name(pub String);

/// A version component: a non-empty run of ASCII digits, kept as text so that
/// leading zeros and arbitrary magnitude survive re-serialization verbatim.
#[derive(Clone, Debug)]
pub struct VersionNumber(pub String);

/// The slot's exact-match operator (`=`).
#[derive(Clone, Debug, PartialEq, Eq, Structural)]
pub enum SlotOperator {
    Eq,
}

/// A slot: a primary identifier (possibly `*`, or empty just before `=`), an
/// optional sub-slot, and an optional trailing operator.
#[derive(Clone, Debug, PartialEq, Eq)]
pub struct Slot {
    pub primary: String,
    pub sub: Option<String>,
    pub operator: Option<SlotOperator>,
}

/// The keyword of a version suffix.
#[derive(Clone, Copy, Debug, PartialEq, Eq, Structural)]
pub enum VersionSuffixKind {
    Alpha,
    Beta,
    Pre,
    Rc,
    P,
}

/// One `_`-separated version suffix term: a keyword with an optional numeric
/// qualifier.
#[derive(Clone, Debug)]
pub struct VersionSuffix {
    pub kind: VersionSuffixKind,
    pub number: Option<VersionNumber>,
}

/// A package version: dot-separated numbers, an optional single trailing
/// lowercase letter, a chain of suffixes, and an optional revision.
#[derive(Clone, Debug)]
pub struct Version {
    pub numbers: Vec<VersionNumber>,
    pub letter: Option<char>,
    pub suffixes: Vec<VersionSuffix>,
    pub revision: Option<VersionNumber>,
}

/// A dependency atom: optional blocker, optional version operator, category,
/// name, optional version, optional slot, and USE dependencies.
#[derive(Clone, Debug)]
pub struct Atom {
    pub blocker: Option<Blocker>,
    pub version_operator: Option<VersionOperator>,
    pub category: Category,
    pub name: Name,
    pub version: Option<Version>,
    pub slot: Option<Slot>,
    pub usedeps: Vec<UseDep>,
}

// ---------------------------------------------------------------------------
// Well-formedness
// ---------------------------------------------------------------------------

/// A valid category: a non-empty identifier with a leading alphanumeric or
/// underscore.
pub open spec fn cat_ok(t: Seq<char>) -> bool {
    &&& t.len() >= 1
    &&& is_word_start(t[0])
    &&& forall|j: int| 1 <= j < t.len() ==> is_word_char(#[trigger] t[j])
}

/// A valid version number: a non-empty run of ASCII digits.
pub open spec fn vnum_ok(t: Seq<char>) -> bool {
    &&& t.len() >= 1
    &&& forall|j: int| 0 <= j < t.len() ==> is_digit(#[trigger] t[j])
}

/// A valid slot identifier: a leading alphanumeric or underscore, then any
/// identifier characters.
pub open spec fn slot_ident_ok(t: Seq<char>) -> bool {
    &&& t.len() >= 1
    &&& is_word_start(t[0])
    &&& forall|j: int| 1 <= j < t.len() ==> is_word_char(#[trigger] t[j])
}

impl View for Category {
    type V = Seq<char>;

    open spec fn view(&self) -> Seq<char> {
        self.0@
    }
}

impl View for Name {
    type V = Seq<char>;

    open spec fn view(&self) -> Seq<char> {
        self.0@
    }
}

impl View for VersionNumber {
    type V = Seq<char>;

    open spec fn view(&self) -> Seq<char> {
        self.0@
    }
}

impl Category {
    /// The identifier is well formed.
    pub open spec fn wf(&self) -> bool {
        cat_ok(self@)
    }

    /// The category's text.
    pub fn get(&self) -> (r: &str)
        ensures
            r@ == self@,
    {
        self.0.as_str()
    }
}

impl Name {
    /// The name's text is well formed: valid name characters, and no trailing
    /// `-version` run that reaches the end of the name.
    pub open spec fn wf(&self) -> bool {
        parsers::name_ok(self@)
    }

    /// The name's text.
    pub fn get(&self) -> (r: &str)
        ensures
            r@ == self@,
    {
        self.0.as_str()
    }
}

impl VersionNumber {
    /// The number is well formed.
    pub open spec fn wf(&self) -> bool {
        vnum_ok(self@)
    }

    /// The number's text, verbatim as parsed.
    pub fn get(&self) -> (r: &str)
        ensures
            r@ == self@,
    {
        self.0.as_str()
    }
}

impl VersionSuffix {
    /// The suffix is well formed.
    pub open spec fn wf(&self) -> bool {
        self.number matches Some(x) ==> vnum_ok(x@)
    }

    /// The suffix's keyword.
    pub fn kind(&self) -> (r: VersionSuffixKind)
        ensures
            r == self.kind,
    {
        self.kind
    }

    /// The suffix's numeric qualifier, if any.
    pub fn number(&self) -> (r: Option<&VersionNumber>)
        ensures
            (r is Some) == (self.number is Some),
            r matches Some(x) ==> self.number == Some(*x),
    {
        self.number.as_ref()
    }
}

impl Version {
    /// Every part of the version is well formed, and at least one number is
    /// present.
    pub open spec fn wf(&self) -> bool {
        &&& self.numbers.len() >= 1
        &&& forall|i: int| 0 <= i < self.numbers.len() ==> (#[trigger] self.numbers[i]).wf()
        &&& self.letter matches Some(c) ==> is_lower(c)
        &&& forall|i: int| 0 <= i < self.suffixes.len() ==> (#[trigger] self.suffixes[i]).wf()
        &&& self.revision matches Some(x) ==> vnum_ok(x@)
    }

    /// The dot-separated version numbers.
    pub fn numbers(&self) -> (r: &Vec<VersionNumber>)
        ensures
            r == self.numbers,
    {
        &self.numbers
    }

    /// The optional trailing letter.
    pub fn letter(&self) -> (r: Option<char>)
        ensures
            r == self.letter,
    {
        self.letter
    }

    /// The `_`-separated suffix chain.
    pub fn suffixes(&self) -> (r: &Vec<VersionSuffix>)
        ensures
            r == self.suffixes,
    {
        &self.suffixes
    }

    /// The revision number, if any.
    pub fn revision(&self) -> (r: Option<&VersionNumber>)
        ensures
            (r is Some) == (self.revision is Some),
            r matches Some(x) ==> self.revision == Some(*x),
    {
        self.revision.as_ref()
    }
}

impl Slot {
    /// The slot is well formed: the primary is an identifier, the `*`
    /// wildcard, or empty right before a `=` operator; a sub-slot, when
    /// present, is an identifier.
    pub open spec fn wf(&self) -> bool {
        &&& {
            ||| slot_ident_ok(self.primary@)
            ||| self.primary@ =~= seq!['*']
            ||| (self.primary@.len() == 0 && self.operator == Some(SlotOperator::Eq)
                && self.sub is None)
        }
        &&& self.sub matches Some(x) ==> slot_ident_ok(x@)
    }
}

impl Atom {
    /// Every part of the atom is well formed.
    pub open spec fn wf(&self) -> bool {
        &&& self.category.wf()
        &&& self.name.wf()
        &&& self.version matches Some(v) ==> v.wf()
        &&& self.slot matches Some(sl) ==> sl.wf()
        &&& forall|i: int| 0 <= i < self.usedeps.len() ==> (#[trigger] self.usedeps[i]).wf()
    }

    /// The blocker, if any.
    pub fn blocker(&self) -> (r: Option<Blocker>)
        ensures
            r == self.blocker,
    {
        self.blocker
    }

    /// The version operator, if any.
    pub fn version_operator(&self) -> (r: Option<VersionOperator>)
        ensures
            r == self.version_operator,
    {
        self.version_operator
    }

    /// The category.
    pub fn category(&self) -> (r: &Category)
        ensures
            r == self.category,
    {
        &self.category
    }

    /// The package name.
    pub fn name(&self) -> (r: &Name)
        ensures
            r == self.name,
    {
        &self.name
    }

    /// The version, if any.
    pub fn version(&self) -> (r: Option<&Version>)
        ensures
            (r is Some) == (self.version is Some),
            r matches Some(x) ==> self.version == Some(*x),
    {
        self.version.as_ref()
    }

    /// The slot, if any.
    pub fn slot(&self) -> (r: Option<&Slot>)
        ensures
            (r is Some) == (self.slot is Some),
            r matches Some(x) ==> self.slot == Some(*x),
    {
        self.slot.as_ref()
    }

    /// The USE dependencies, possibly empty.
    pub fn usedeps(&self) -> (r: &Vec<UseDep>)
        ensures
            r == self.usedeps,
    {
        &self.usedeps
    }
}

// ---------------------------------------------------------------------------
// Canonical text
// ---------------------------------------------------------------------------

/// The canonical text of a blocker.
pub open spec fn blocker_str(b: Blocker) -> Seq<char> {
    match b {
        Blocker::Weak => seq!['!'],
        Blocker::Strong => seq!['!', '!'],
    }
}

/// The canonical text of a version operator.
pub open spec fn vop_str(o: VersionOperator) -> Seq<char> {
    match o {
        VersionOperator::Eq => seq!['='],
        VersionOperator::Lt => seq!['<'],
        VersionOperator::LtEq => seq!['<', '='],
        VersionOperator::Gt => seq!['>'],
        VersionOperator::GtEq => seq!['>', '='],
        VersionOperator::Roughly => seq!['~'],
    }
}

/// The canonical text of a suffix keyword.
pub open spec fn suffix_kind_str(k: VersionSuffixKind) -> Seq<char> {
    match k {
        VersionSuffixKind::Alpha => seq!['a', 'l', 'p', 'h', 'a'],
        VersionSuffixKind::Beta => seq!['b', 'e', 't', 'a'],
        VersionSuffixKind::Pre => seq!['p', 'r', 'e'],
        VersionSuffixKind::Rc => seq!['r', 'c'],
        VersionSuffixKind::P => seq!['p'],
    }
}

/// The given parts joined by the separator, in order.
pub open spec fn joined(parts: Seq<Seq<char>>, sep: Seq<char>) -> Seq<char>
    decreases parts.len(),
{
    if parts.len() == 0 {
        Seq::<char>::empty()
    } else if parts.len() == 1 {
        parts[0]
    } else {
        parts[0] + sep + joined(parts.drop_first(), sep)
    }
}

/// Appending one more part to a join appends a separator and the part.
pub proof fn lemma_joined_snoc(parts: Seq<Seq<char>>, sep: Seq<char>)
    requires
        parts.len() >= 2,
    ensures
        joined(parts, sep) =~= joined(parts.drop_last(), sep) + sep + parts.last(),
    decreases parts.len(),
{
    let rest = parts.drop_first();
    assert(joined(parts, sep) == parts[0] + sep + joined(rest, sep));
    if parts.len() == 2 {
        assert(rest.len() == 1);
        assert(joined(rest, sep) == rest[0]);
        assert(rest[0] == parts[1]);
        assert(parts.drop_last() =~= seq![parts[0]]);
        assert(joined(parts.drop_last(), sep) == parts[0]);
        assert(joined(parts, sep) =~= joined(parts.drop_last(), sep) + sep + parts.last());
    } else {
        lemma_joined_snoc(rest, sep);
        assert(rest.drop_last() =~= parts.drop_last().drop_first());
        assert(parts.drop_last().len() >= 2);
        assert(joined(parts.drop_last(), sep) == parts.drop_last()[0] + sep + joined(
            parts.drop_last().drop_first(),
            sep,
        ));
        assert(parts.drop_last()[0] == parts[0]);
        assert(rest.last() == parts.last());
        assert(joined(parts, sep) =~= joined(parts.drop_last(), sep) + sep + parts.last());
    }
}

/// The canonical text of an optional trailing version letter.
pub open spec fn opt_letter_str(x: Option<char>) -> Seq<char> {
    match x {
        Some(c) => seq![c],
        None => Seq::<char>::empty(),
    }
}

/// The canonical text of a suffix chain: nothing, or `_` followed by the
/// `_`-joined suffix terms.
pub open spec fn suffix_part_str(s: Seq<VersionSuffix>) -> Seq<char> {
    if s.len() > 0 {
        seq!['_'] + joined(s.map_values(|x: VersionSuffix| x.spec_str()), seq!['_'])
    } else {
        Seq::<char>::empty()
    }
}

/// The canonical text of an optional revision: nothing, or `-r` followed by
/// the revision digits.
pub open spec fn opt_rev_str(x: Option<VersionNumber>) -> Seq<char> {
    match x {
        Some(n) => seq!['-', 'r'] + n@,
        None => Seq::<char>::empty(),
    }
}

impl VersionSuffix {
    /// The canonical text of the suffix: keyword, then qualifier digits.
    pub open spec fn spec_str(&self) -> Seq<char> {
        suffix_kind_str(self.kind) + (match self.number {
            Some(x) => x@,
            None => Seq::<char>::empty(),
        })
    }

    /// Renders the suffix in canonical form.
    pub fn render(&self) -> (r: String)
        ensures
            r@ == self.spec_str(),
    {
        let mut out = String::new();
        match self.kind {
            VersionSuffixKind::Alpha => {
                proof {
                    reveal_strlit("alpha");
                    assert("alpha"@ =~= seq!['a', 'l', 'p', 'h', 'a']);
                }
                out.append("alpha");
            },
            VersionSuffixKind::Beta => {
                proof {
                    reveal_strlit("beta");
                    assert("beta"@ =~= seq!['b', 'e', 't', 'a']);
                }
                out.append("beta");
            },
            VersionSuffixKind::Pre => {
                proof {
                    reveal_strlit("pre");
                    assert("pre"@ =~= seq!['p', 'r', 'e']);
                }
                out.append("pre");
            },
            VersionSuffixKind::Rc => {
                proof {
                    reveal_strlit("rc");
                    assert("rc"@ =~= seq!['r', 'c']);
                }
                out.append("rc");
            },
            VersionSuffixKind::P => push_char(&mut out, 'p'),
        }
        match self.number.as_ref() {
            Some(x) => out.append(x.get()),
            None => (),
        }
        proof {
            assert(out@ =~= self.spec_str());
        }
        out
    }
}

impl Version {
    /// The canonical text of the version: numbers joined by `.`, the letter,
    /// `_`-joined suffixes after a leading `_`, and `-r` before the revision.
    pub open spec fn spec_str(&self) -> Seq<char> {
        joined(self.numbers@.map_values(|x: VersionNumber| x@), seq!['.']) + (match self.letter {
            Some(c) => seq![c],
            None => Seq::<char>::empty(),
        }) + (if self.suffixes.len() > 0 {
            seq!['_'] + joined(self.suffixes@.map_values(|x: VersionSuffix| x.spec_str()), seq!['_'])
        } else {
            Seq::<char>::empty()
        }) + (match self.revision {
            Some(x) => seq!['-', 'r'] + x@,
            None => Seq::<char>::empty(),
        })
    }

    /// Renders the version in canonical form.
    pub fn render(&self) -> (r: String)
        ensures
            r@ == self.spec_str(),
    {
        let ghost nparts = self.numbers@.map_values(|x: VersionNumber| x@);
        let mut out = String::new();
        let mut i: usize = 0;
        while i < self.numbers.len()
            invariant
                i <= self.numbers.len(),
                nparts == self.numbers@.map_values(|x: VersionNumber| x@),
                out@ == joined(nparts.subrange(0, i as int), seq!['.']),
            decreases self.numbers.len() - i,
        {
            if i > 0 {
                push_char(&mut out, '.');
            }
            out.append(self.numbers[i].get());
            proof {
                let pre = nparts.subrange(0, i as int);
                let cur = nparts.subrange(0, i as int + 1);
                if i == 0 {
                    assert(cur =~= seq![nparts[0]]);
                    assert(out@ =~= joined(cur, seq!['.']));
                } else {
                    lemma_joined_snoc(cur, seq!['.']);
                    assert(cur.drop_last() =~= pre);
                    assert(out@ =~= joined(cur, seq!['.']));
                }
            }
            i = i + 1;
        }
        proof {
            assert(nparts.subrange(0, self.numbers@.len() as int) =~= nparts);
        }
        match self.letter {
            Some(c) => push_char(&mut out, c),
            None => (),
        }
        let ghost after_letter = out@;
        let ghost sparts = self.suffixes@.map_values(|x: VersionSuffix| x.spec_str());
        if self.suffixes.len() > 0 {
            push_char(&mut out, '_');
            let mut i: usize = 0;
            while i < self.suffixes.len()
                invariant
                    i <= self.suffixes.len(),
                    sparts == self.suffixes@.map_values(|x: VersionSuffix| x.spec_str()),
                    out@ == after_letter + seq!['_'] + joined(sparts.subrange(0, i as int), seq!['_']),
                decreases self.suffixes.len() - i,
            {
                if i > 0 {
                    push_char(&mut out, '_');
                }
                let part = self.suffixes[i].render();
                out.append(part.as_str());
                proof {
                    let pre = sparts.subrange(0, i as int);
                    let cur = sparts.subrange(0, i as int + 1);
                    if i == 0 {
                        assert(cur =~= seq![sparts[0]]);
                        assert(out@ =~= after_letter + seq!['_'] + joined(cur, seq!['_']));
                    } else {
                        lemma_joined_snoc(cur, seq!['_']);
                        assert(cur.drop_last() =~= pre);
                        assert(out@ =~= after_letter + seq!['_'] + joined(cur, seq!['_']));
                    }
                }
                i = i + 1;
            }
            proof {
                assert(sparts.subrange(0, self.suffixes@.len() as int) =~= sparts);
            }
        }
        match self.revision.as_ref() {
            Some(x) => {
                push_char(&mut out, '-');
                push_char(&mut out, 'r');
                out.append(x.get());
            },
            None => (),
        }
        proof {
            assert(out@ =~= self.spec_str());
        }
        out
    }
}

impl Slot {
    /// The canonical text of the slot: primary, `/`-prefixed sub-slot,
    /// operator.
    pub open spec fn spec_str(&self) -> Seq<char> {
        self.primary@ + (match self.sub {
            Some(x) => seq!['/'] + x@,
            None => Seq::<char>::empty(),
        }) + (match self.operator {
            Some(SlotOperator::Eq) => seq!['='],
            None => Seq::<char>::empty(),
        })
    }

    /// Renders the slot in canonical form.
    pub fn render(&self) -> (r: String)
        ensures
            r@ == self.spec_str(),
    {
        let mut out = String::new();
        out.append(self.primary.as_str());
        match self.sub.as_ref() {
            Some(x) => {
                push_char(&mut out, '/');
                out.append(x.as_str());
            },
            None => (),
        }
        match self.operator {
            Some(SlotOperator::Eq) => push_char(&mut out, '='),
            None => (),
        }
        proof {
            assert(out@ =~= self.spec_str());
        }
        out
    }
}

impl Atom {
    /// The canonical text of the atom: blocker, operator, `category/name`,
    /// `-version`, `:slot`, and the bracketed comma-joined USE dependencies.
    pub open spec fn spec_str(&self) -> Seq<char> {
        (match self.blocker {
            Some(b) => blocker_str(b),
            None => Seq::<char>::empty(),
        }) + (match self.version_operator {
            Some(o) => vop_str(o),
            None => Seq::<char>::empty(),
        }) + self.category@ + seq!['/'] + self.name@ + (match self.version {
            Some(v) => seq!['-'] + v.spec_str(),
            None => Seq::<char>::empty(),
        }) + (match self.slot {
            Some(sl) => seq![':'] + sl.spec_str(),
            None => Seq::<char>::empty(),
        }) + (if self.usedeps.len() > 0 {
            seq!['['] + joined(self.usedeps@.map_values(|x: UseDep| x.spec_str()), seq![','])
                + seq![']']
        } else {
            Seq::<char>::empty()
        })
    }

    /// Renders the atom in canonical form.
    #[verifier::rlimit(100)]
    #[verifier::spinoff_prover]
    pub fn render(&self) -> (r: String)
        ensures
            r@ == self.spec_str(),
    {
        let mut out = String::new();
        match self.blocker {
            Some(Blocker::Weak) => push_char(&mut out, '!'),
            Some(Blocker::Strong) => {
                push_char(&mut out, '!');
                push_char(&mut out, '!');
            },
            None => (),
        }
        let ghost g1 = out@;
        proof {
            assert(g1 =~= (match self.blocker {
                Some(b) => blocker_str(b),
                None => Seq::<char>::empty(),
            }));
        }
        match self.version_operator {
            Some(VersionOperator::Eq) => push_char(&mut out, '='),
            Some(VersionOperator::Lt) => push_char(&mut out, '<'),
            Some(VersionOperator::LtEq) => {
                push_char(&mut out, '<');
                push_char(&mut out, '=');
            },
            Some(VersionOperator::Gt) => push_char(&mut out, '>'),
            Some(VersionOperator::GtEq) => {
                push_char(&mut out, '>');
                push_char(&mut out, '=');
            },
            Some(VersionOperator::Roughly) => push_char(&mut out, '~'),
            None => (),
        }
        let ghost g2 = out@;
        proof {
            assert(g2 =~= g1 + (match self.version_operator {
                Some(o) => vop_str(o),
                None => Seq::<char>::empty(),
            }));
        }
        out.append(self.category.get());
        push_char(&mut out, '/');
        out.append(self.name.get());
        let ghost g3 = out@;
        proof {
            assert(g3 =~= g2 + self.category@ + seq!['/'] + self.name@);
        }
        match self.version.as_ref() {
            Some(v) => {
                push_char(&mut out, '-');
                let vt = v.render();
                out.append(vt.as_str());
            },
            None => (),
        }
        let ghost g4 = out@;
        proof {
            assert(g4 =~= g3 + (match self.version {
                Some(v) => seq!['-'] + v.spec_str(),
                None => Seq::<char>::empty(),
            }));
        }
        match self.slot.as_ref() {
            Some(sl) => {
                push_char(&mut out, ':');
                let st = sl.render();
                out.append(st.as_str());
            },
            None => (),
        }
        let ghost g5 = out@;
        proof {
            assert(g5 =~= g4 + (match self.slot {
                Some(sl) => seq![':'] + sl.spec_str(),
                None => Seq::<char>::empty(),
            }));
        }
        let ghost dparts = self.usedeps@.map_values(|x: UseDep| x.spec_str());
        if self.usedeps.len() > 0 {
            let mut deps = String::new();
            let mut i: usize = 0;
            while i < self.usedeps.len()
                invariant
                    i <= self.usedeps.len(),
                    dparts == self.usedeps@.map_values(|x: UseDep| x.spec_str()),
                    deps@ == joined(dparts.subrange(0, i as int), seq![',']),
                decreases self.usedeps.len() - i,
            {
                if i > 0 {
                    push_char(&mut deps, ',');
                }
                let part = self.usedeps[i].render();
                deps.append(part.as_str());
                proof {
                    let pre = dparts.subrange(0, i as int);
                    let cur = dparts.subrange(0, i as int + 1);
                    if i == 0 {
                        assert(cur =~= seq![dparts[0]]);
                        assert(deps@ =~= joined(cur, seq![',']));
                    } else {
                        lemma_joined_snoc(cur, seq![',']);
                        assert(cur.drop_last() =~= pre);
                        assert(deps@ =~= joined(cur, seq![',']));
                    }
                }
                i = i + 1;
            }
            proof {
                assert(dparts.subrange(0, self.usedeps@.len() as int) =~= dparts);
            }
            push_char(&mut out, '[');
            out.append(deps.as_str());
            push_char(&mut out, ']');
            proof {
                assert(out@ =~= g5 + (seq!['['] + joined(dparts, seq![',']) + seq![']']));
            }
        }
        proof {
            assert(out@ =~= self.spec_str());
        }
        out
    }
}

// ---------------------------------------------------------------------------
// Canonical text is unambiguous
// ---------------------------------------------------------------------------

/// The pure content of a slot, for stating laws.
pub ghost struct SlotModel {
    pub primary: Seq<char>,
    pub sub: Option<Seq<char>>,
    pub operator: Option<SlotOperator>,
}

impl View for Slot {
    type V = SlotModel;

    open spec fn view(&self) -> SlotModel {
        SlotModel {
            primary: self.primary@,
            sub: match self.sub {
                Some(x) => Some(x@),
                None => None,
            },
            operator: self.operator,
        }
    }
}

/// The pure content of a version suffix, for stating laws.
pub ghost struct SuffixModel {
    pub kind: VersionSuffixKind,
    pub number: Option<Seq<char>>,
}

impl View for VersionSuffix {
    type V = SuffixModel;

    open spec fn view(&self) -> SuffixModel {
        SuffixModel {
            kind: self.kind,
            number: match self.number {
                Some(x) => Some(x@),
                None => None,
            },
        }
    }
}

/// The pure content of a version, for stating laws.
pub ghost struct VersionModel {
    pub numbers: Seq<Seq<char>>,
    pub letter: Option<char>,
    pub suffixes: Seq<SuffixModel>,
    pub revision: Option<Seq<char>>,
}

impl View for Version {
    type V = VersionModel;

    open spec fn view(&self) -> VersionModel {
        VersionModel {
            numbers: self.numbers@.map_values(|x: VersionNumber| x@),
            letter: self.letter,
            suffixes: self.suffixes@.map_values(|x: VersionSuffix| x@),
            revision: match self.revision {
                Some(x) => Some(x@),
                None => None,
            },
        }
    }
}

/// Canonical slot text is unambiguous: two well-formed slots that render to
/// the same text have the same content.
#[verifier::rlimit(60)]
pub proof fn lemma_slot_str_unique(s1: &Slot, s2: &Slot)
    requires
        s1.wf(),
        s2.wf(),
        s1.spec_str() == s2.spec_str(),
    ensures
        s1@ == s2@,
{
    let p1 = s1.primary@;
    let p2 = s2.primary@;
    let u1 = match s1.sub {
        Some(x) => seq!['/'] + x@,
        None => Seq::<char>::empty(),
    };
    let u2 = match s2.sub {
        Some(x) => seq!['/'] + x@,
        None => Seq::<char>::empty(),
    };
    let o1 = match s1.operator {
        Some(SlotOperator::Eq) => seq!['='],
        None => Seq::<char>::empty(),
    };
    let o2 = match s2.operator {
        Some(SlotOperator::Eq) => seq!['='],
        None => Seq::<char>::empty(),
    };
    let t = s1.spec_str();
    assert(t =~= p1 + (u1 + o1));
    assert(t =~= p2 + (u2 + o2));
    assert((u1 + o1).len() == u1.len() + o1.len());
    assert((u2 + o2).len() == u2.len() + o2.len());
    // The primary is an identifier run, `*`, or empty; the first character
    // of the text tells the three cases apart.
    if u1.len() > 0 {
        assert((u1 + o1)[0] == '/');
    } else if o1.len() > 0 {
        assert((u1 + o1)[0] == '=');
    }
    if u2.len() > 0 {
        assert((u2 + o2)[0] == '/');
    } else if o2.len() > 0 {
        assert((u2 + o2)[0] == '=');
    }
    if p1.len() > 0 {
        assert(t[0] == p1[0]);
    } else {
        assert(t[0] == (u1 + o1)[0 - p1.len()]);
    }
    if p2.len() > 0 {
        assert(t[0] == p2[0]);
    } else {
        assert(t[0] == (u2 + o2)[0 - p2.len()]);
    }
    if slot_ident_ok(p1) && slot_ident_ok(p2) {
        assert(u1.len() == 0 || !word_pred()(u1[0]));
        assert((u1 + o1).len() == 0 || !word_pred()((u1 + o1)[0]));
        assert((u2 + o2).len() == 0 || !word_pred()((u2 + o2)[0]));
        lemma_run_boundary(p1, u1 + o1, p2, u2 + o2, word_pred());
    } else if p1 =~= seq!['*'] && p2 =~= seq!['*'] {
        assert(p1 == p2);
        lemma_concat_cancel(p1, u1 + o1, u2 + o2);
    } else if p1.len() == 0 && p2.len() == 0 {
        assert(p1 =~= p2);
        lemma_concat_cancel(p1, u1 + o1, u2 + o2);
    } else {
        // Mixed cases: the first character cannot agree.
        assert(t.len() > 0);
        if slot_ident_ok(p1) {
            assert(is_word_start(t[0]));
        } else if p1 =~= seq!['*'] {
            assert(t[0] == '*');
        } else {
            assert(t[0] == '=');
        }
        if slot_ident_ok(p2) {
            assert(is_word_start(t[0]));
        } else if p2 =~= seq!['*'] {
            assert(t[0] == '*');
        } else {
            assert(t[0] == '=');
        }
        if (slot_ident_ok(p1) && !slot_ident_ok(p2)) || (!slot_ident_ok(p1) && slot_ident_ok(p2)) {
            assert(false);
        }
        assert(false);
    }
    assert(p1 == p2);
    assert(u1 + o1 == u2 + o2);
    match (s1.sub, s2.sub) {
        (Some(x1), Some(x2)) => {
            assert(u1 + o1 =~= seq!['/'] + (x1@ + o1));
            assert(u2 + o2 =~= seq!['/'] + (x2@ + o2));
            lemma_concat_cancel(seq!['/'], x1@ + o1, x2@ + o2);
            assert(o1.len() == 0 || !word_pred()(o1[0]));
            assert(o2.len() == 0 || !word_pred()(o2[0]));
            lemma_run_boundary(x1@, o1, x2@, o2, word_pred());
        },
        (None, None) => {
            lemma_concat_cancel(u1, o1, o2);
        },
        (Some(x1), None) => {
            assert(u1.len() == 1 + x1@.len());
            assert((u1 + o1)[0] == '/');
            assert(false);
        },
        (None, Some(x2)) => {
            assert(u2.len() == 1 + x2@.len());
            assert((u2 + o2)[0] == '/');
            assert(false);
        },
    }
    assert(o1 == o2);
    match (s1.operator, s2.operator) {
        (Some(SlotOperator::Eq), Some(SlotOperator::Eq)) => (),
        (None, None) => (),
        _ => {
            assert(o1.len() == o2.len());
            assert(seq!['='].len() == 1);
            assert(false);
        },
    }
    assert(s1@.primary == s2@.primary);
    assert(s1@.sub == s2@.sub);
    assert(s1@.operator == s2@.operator);
    assert(s1@ == s2@);
}

/// Dot-joined digit runs followed by a remainder that starts with neither a
/// digit nor a dot are read back uniquely.
#[verifier::rlimit(80)]
proof fn lemma_numbers_unique(p1: Seq<Seq<char>>, x: Seq<char>, p2: Seq<Seq<char>>, y: Seq<char>)
    requires
        p1.len() >= 1,
        p2.len() >= 1,
        forall|i: int| 0 <= i < p1.len() ==> vnum_ok(#[trigger] p1[i]),
        forall|i: int| 0 <= i < p2.len() ==> vnum_ok(#[trigger] p2[i]),
        joined(p1, seq!['.']) + x == joined(p2, seq!['.']) + y,
        x.len() == 0 || (!is_digit(x[0]) && x[0] != '.'),
        y.len() == 0 || (!is_digit(y[0]) && y[0] != '.'),
    ensures
        p1 == p2,
        x == y,
    decreases p1.len(),
{
    let a = p1[0];
    let b = p2[0];
    let j1 = joined(p1.drop_first(), seq!['.']);
    let j2 = joined(p2.drop_first(), seq!['.']);
    let x1 = if p1.len() == 1 {
        x
    } else {
        (seq!['.'] + j1) + x
    };
    let x2 = if p2.len() == 1 {
        y
    } else {
        (seq!['.'] + j2) + y
    };
    if p1.len() == 1 {
        assert(joined(p1, seq!['.']) == a);
    } else {
        assert(joined(p1, seq!['.']) == a + seq!['.'] + j1);
        assert((seq!['.'] + j1).len() == 1 + j1.len());
        assert(x1.len() == 1 + j1.len() + x.len());
        assert(x1[0] == '.');
    }
    if p2.len() == 1 {
        assert(joined(p2, seq!['.']) == b);
    } else {
        assert(joined(p2, seq!['.']) == b + seq!['.'] + j2);
        assert((seq!['.'] + j2).len() == 1 + j2.len());
        assert(x2.len() == 1 + j2.len() + y.len());
        assert(x2[0] == '.');
    }
    assert(joined(p1, seq!['.']) + x =~= a + x1);
    assert(joined(p2, seq!['.']) + y =~= b + x2);
    assert(x1.len() == 0 || !digit_pred()(x1[0]));
    assert(x2.len() == 0 || !digit_pred()(x2[0]));
    lemma_run_boundary(a, x1, b, x2, digit_pred());
    if p1.len() == 1 && p2.len() == 1 {
        assert(p1 =~= p2);
    } else if p1.len() > 1 && p2.len() > 1 {
        assert(x1 =~= seq!['.'] + (j1 + x));
        assert(x2 =~= seq!['.'] + (j2 + y));
        lemma_concat_cancel(seq!['.'], j1 + x, j2 + y);
        assert forall|i: int| 0 <= i < p1.drop_first().len() implies vnum_ok(
            #[trigger] p1.drop_first()[i],
        ) by {
            assert(p1.drop_first()[i] == p1[i + 1]);
        }
        assert forall|i: int| 0 <= i < p2.drop_first().len() implies vnum_ok(
            #[trigger] p2.drop_first()[i],
        ) by {
            assert(p2.drop_first()[i] == p2[i + 1]);
        }
        lemma_numbers_unique(p1.drop_first(), x, p2.drop_first(), y);
        assert(p1.len() == p2.len());
        assert forall|i: int| 0 <= i < p1.len() implies p1[i] == p2[i] by {
            if i > 0 {
                assert(p1[i] == p1.drop_first()[i - 1]);
                assert(p2[i] == p2.drop_first()[i - 1]);
            }
        }
        assert(p1 =~= p2);
    } else if p1.len() > 1 {
        assert(x1[0] == '.');
        assert(x2 == y);
        assert(false);
    } else {
        assert(x2[0] == '.');
        assert(x1 == x);
        assert(false);
    }
}

/// The keyword of every suffix kind is non-empty, and its first letter
/// names the kind (with `p` shared by `p` and `pre`).
proof fn lemma_kind_str_shape(k: VersionSuffixKind)
    ensures
        suffix_kind_str(k).len() >= 1,
        suffix_kind_str(k)[0] == (match k {
            VersionSuffixKind::Alpha => 'a',
            VersionSuffixKind::Beta => 'b',
            VersionSuffixKind::Pre => 'p',
            VersionSuffixKind::Rc => 'r',
            VersionSuffixKind::P => 'p',
        }),
{
}

/// A suffix term followed by a remainder that starts with `_`, `-`, or
/// nothing is read back uniquely.
#[verifier::rlimit(100)]
#[verifier::spinoff_prover]
proof fn lemma_suffix_term_unique(u1: VersionSuffix, r1: Seq<char>, u2: VersionSuffix, r2: Seq<char>)
    requires
        u1.wf(),
        u2.wf(),
        u1.spec_str() + r1 == u2.spec_str() + r2,
        r1.len() == 0 || r1[0] == '_' || r1[0] == '-',
        r2.len() == 0 || r2[0] == '_' || r2[0] == '-',
    ensures
        u1@ == u2@,
        r1 == r2,
{
    let k1 = suffix_kind_str(u1.kind);
    let k2 = suffix_kind_str(u2.kind);
    let n1 = match u1.number {
        Some(d) => d@,
        None => Seq::<char>::empty(),
    };
    let n2 = match u2.number {
        Some(d) => d@,
        None => Seq::<char>::empty(),
    };
    let t = u1.spec_str() + r1;
    assert(t =~= k1 + (n1 + r1));
    assert(t =~= k2 + (n2 + r2));
    assert(t.len() == k1.len() + n1.len() + r1.len());
    assert(t.len() == k2.len() + n2.len() + r2.len());
    lemma_kind_str_shape(u1.kind);
    lemma_kind_str_shape(u2.kind);
    assert(t[0] == k1[0]);
    assert(t[0] == k2[0]);
    match (u1.kind, u2.kind) {
        (VersionSuffixKind::Alpha, VersionSuffixKind::Alpha) => (),
        (VersionSuffixKind::Beta, VersionSuffixKind::Beta) => (),
        (VersionSuffixKind::Pre, VersionSuffixKind::Pre) => (),
        (VersionSuffixKind::Rc, VersionSuffixKind::Rc) => (),
        (VersionSuffixKind::P, VersionSuffixKind::P) => (),
        (VersionSuffixKind::P, VersionSuffixKind::Pre) => {
            assert(t[1] == k2[1]);
            assert(t[1] == (n1 + r1)[0]);
            if n1.len() > 0 {
                assert(is_digit(n1[0]));
            } else {
                assert(r1.len() > 0);
                assert((n1 + r1)[0] == r1[0]);
            }
            assert(false);
        },
        (VersionSuffixKind::Pre, VersionSuffixKind::P) => {
            assert(t[1] == k1[1]);
            assert(t[1] == (n2 + r2)[0]);
            if n2.len() > 0 {
                assert(is_digit(n2[0]));
            } else {
                assert(r2.len() > 0);
                assert((n2 + r2)[0] == r2[0]);
            }
            assert(false);
        },
        _ => {
            assert(false);
        },
    }
    assert(u1.kind == u2.kind);
    assert(k1 == k2);
    lemma_concat_cancel(k1, n1 + r1, n2 + r2);
    assert(r1.len() == 0 || !digit_pred()(r1[0]));
    assert(r2.len() == 0 || !digit_pred()(r2[0]));
    lemma_run_boundary(n1, r1, n2, r2, digit_pred());
    match (u1.number, u2.number) {
        (Some(_), Some(_)) => (),
        (None, None) => (),
        (Some(d), None) => {
            assert(d@.len() >= 1);
            assert(false);
        },
        (None, Some(d)) => {
            assert(d@.len() >= 1);
            assert(false);
        },
    }
    assert(u1@.kind == u2@.kind);
    assert(u1@.number == u2@.number);
    assert(u1@ == u2@);
}

/// Underscore-joined suffix terms followed by a remainder that starts with
/// `-` or nothing are read back uniquely.
#[verifier::rlimit(80)]
proof fn lemma_suffixes_unique(
    s1: Seq<VersionSuffix>,
    x: Seq<char>,
    s2: Seq<VersionSuffix>,
    y: Seq<char>,
)
    requires
        s1.len() >= 1,
        s2.len() >= 1,
        forall|i: int| 0 <= i < s1.len() ==> (#[trigger] s1[i]).wf(),
        forall|i: int| 0 <= i < s2.len() ==> (#[trigger] s2[i]).wf(),
        joined(s1.map_values(|z: VersionSuffix| z.spec_str()), seq!['_']) + x == joined(
            s2.map_values(|z: VersionSuffix| z.spec_str()),
            seq!['_'],
        ) + y,
        x.len() == 0 || x[0] == '-',
        y.len() == 0 || y[0] == '-',
    ensures
        s1.map_values(|z: VersionSuffix| z@) == s2.map_values(|z: VersionSuffix| z@),
        x == y,
    decreases s1.len(),
{
    let m1 = s1.map_values(|z: VersionSuffix| z.spec_str());
    let m2 = s2.map_values(|z: VersionSuffix| z.spec_str());
    let a = m1[0];
    let b = m2[0];
    assert(a == s1[0].spec_str());
    assert(b == s2[0].spec_str());
    let j1 = joined(m1.drop_first(), seq!['_']);
    let j2 = joined(m2.drop_first(), seq!['_']);
    let x1 = if s1.len() == 1 {
        x
    } else {
        (seq!['_'] + j1) + x
    };
    let x2 = if s2.len() == 1 {
        y
    } else {
        (seq!['_'] + j2) + y
    };
    if s1.len() == 1 {
        assert(joined(m1, seq!['_']) == a);
    } else {
        assert(m1.len() == s1.len());
        assert(joined(m1, seq!['_']) == a + seq!['_'] + j1);
        assert((seq!['_'] + j1).len() == 1 + j1.len());
        assert(x1.len() == 1 + j1.len() + x.len());
        assert(x1[0] == '_');
    }
    if s2.len() == 1 {
        assert(joined(m2, seq!['_']) == b);
    } else {
        assert(m2.len() == s2.len());
        assert(joined(m2, seq!['_']) == b + seq!['_'] + j2);
        assert((seq!['_'] + j2).len() == 1 + j2.len());
        assert(x2.len() == 1 + j2.len() + y.len());
        assert(x2[0] == '_');
    }
    assert(joined(m1, seq!['_']) + x =~= a + x1);
    assert(joined(m2, seq!['_']) + y =~= b + x2);
    assert(x1.len() == 0 || x1[0] == '_' || x1[0] == '-');
    assert(x2.len() == 0 || x2[0] == '_' || x2[0] == '-');
    assert(s1[0].spec_str() + x1 == s2[0].spec_str() + x2);
    lemma_suffix_term_unique(s1[0], x1, s2[0], x2);
    if s1.len() == 1 && s2.len() == 1 {
        assert(s1.map_values(|z: VersionSuffix| z@) =~= s2.map_values(|z: VersionSuffix| z@));
    } else if s1.len() > 1 && s2.len() > 1 {
        assert(x1 =~= seq!['_'] + (j1 + x));
        assert(x2 =~= seq!['_'] + (j2 + y));
        lemma_concat_cancel(seq!['_'], j1 + x, j2 + y);
        assert(m1.drop_first() =~= s1.drop_first().map_values(|z: VersionSuffix| z.spec_str()));
        assert(m2.drop_first() =~= s2.drop_first().map_values(|z: VersionSuffix| z.spec_str()));
        assert forall|i: int| 0 <= i < s1.drop_first().len() implies (#[trigger] s1.drop_first()[i]).wf() by {
            assert(s1.drop_first()[i] == s1[i + 1]);
        }
        assert forall|i: int| 0 <= i < s2.drop_first().len() implies (#[trigger] s2.drop_first()[i]).wf() by {
            assert(s2.drop_first()[i] == s2[i + 1]);
        }
        lemma_suffixes_unique(s1.drop_first(), x, s2.drop_first(), y);
        let w1 = s1.map_values(|z: VersionSuffix| z@);
        let w2 = s2.map_values(|z: VersionSuffix| z@);
        let d1 = s1.drop_first().map_values(|z: VersionSuffix| z@);
        let d2 = s2.drop_first().map_values(|z: VersionSuffix| z@);
        assert(d1.len() == d2.len());
        assert(w1.len() == w2.len());
        assert forall|i: int| 0 <= i < w1.len() implies w1[i] == w2[i] by {
            if i == 0 {
                assert(w1[0] == s1[0]@);
                assert(w2[0] == s2[0]@);
            } else {
                assert(w1[i] == s1[i]@);
                assert(s1[i] == s1.drop_first()[i - 1]);
                assert(d1[i - 1] == s1.drop_first()[i - 1]@);
                assert(w2[i] == s2[i]@);
                assert(s2[i] == s2.drop_first()[i - 1]);
                assert(d2[i - 1] == s2.drop_first()[i - 1]@);
            }
        }
        assert(w1 =~= w2);
    } else if s1.len() > 1 {
        assert(x1[0] == '_');
        assert(x2 == y);
        assert(false);
    } else {
        assert(x2[0] == '_');
        assert(x1 == x);
        assert(false);
    }
}

/// Canonical version text is unambiguous: two well-formed versions that
/// render to the same text have the same content. Together with the
/// parsers' guarantee that the text they consume is the canonical text of
/// the value they return, re-parsing a rendered version can only yield the
/// version itself.
#[verifier::rlimit(100)]
#[verifier::spinoff_prover]
pub proof fn lemma_version_str_unique(v1: &Version, v2: &Version)
    requires
        v1.wf(),
        v2.wf(),
        v1.spec_str() == v2.spec_str(),
    ensures
        v1@ == v2@,
{
    let np1 = v1.numbers@.map_values(|x: VersionNumber| x@);
    let np2 = v2.numbers@.map_values(|x: VersionNumber| x@);
    let l1 = match v1.letter {
        Some(c) => seq![c],
        None => Seq::<char>::empty(),
    };
    let l2 = match v2.letter {
        Some(c) => seq![c],
        None => Seq::<char>::empty(),
    };
    let sp1 = if v1.suffixes.len() > 0 {
        seq!['_'] + joined(v1.suffixes@.map_values(|x: VersionSuffix| x.spec_str()), seq!['_'])
    } else {
        Seq::<char>::empty()
    };
    let sp2 = if v2.suffixes.len() > 0 {
        seq!['_'] + joined(v2.suffixes@.map_values(|x: VersionSuffix| x.spec_str()), seq!['_'])
    } else {
        Seq::<char>::empty()
    };
    let r1 = match v1.revision {
        Some(d) => seq!['-', 'r'] + d@,
        None => Seq::<char>::empty(),
    };
    let r2 = match v2.revision {
        Some(d) => seq!['-', 'r'] + d@,
        None => Seq::<char>::empty(),
    };
    let t = v1.spec_str();
    assert(t =~= joined(np1, seq!['.']) + (l1 + (sp1 + r1)));
    assert(t =~= joined(np2, seq!['.']) + (l2 + (sp2 + r2)));
    assert forall|i: int| 0 <= i < np1.len() implies vnum_ok(#[trigger] np1[i]) by {
        assert(np1[i] == v1.numbers@[i]@);
    }
    assert forall|i: int| 0 <= i < np2.len() implies vnum_ok(#[trigger] np2[i]) by {
        assert(np2[i] == v2.numbers@[i]@);
    }
    let q1 = l1 + (sp1 + r1);
    let q2 = l2 + (sp2 + r2);
    assert(q1.len() == l1.len() + sp1.len() + r1.len());
    assert(q2.len() == l2.len() + sp2.len() + r2.len());
    if l1.len() > 0 {
        assert(q1[0] == l1[0]);
    } else if sp1.len() > 0 {
        assert(q1[0] == sp1[0]);
        assert(sp1[0] == '_');
    } else if r1.len() > 0 {
        assert(q1[0] == r1[0]);
        assert(r1[0] == '-');
    }
    if l2.len() > 0 {
        assert(q2[0] == l2[0]);
    } else if sp2.len() > 0 {
        assert(q2[0] == sp2[0]);
        assert(sp2[0] == '_');
    } else if r2.len() > 0 {
        assert(q2[0] == r2[0]);
        assert(r2[0] == '-');
    }
    assert(q1.len() == 0 || (!is_digit(q1[0]) && q1[0] != '.'));
    assert(q2.len() == 0 || (!is_digit(q2[0]) && q2[0] != '.'));
    lemma_numbers_unique(np1, q1, np2, q2);
    match (v1.letter, v2.letter) {
        (Some(c1), Some(c2)) => {
            assert(q1[0] == c1);
            assert(q2[0] == c2);
            assert(c1 == c2);
            assert(q1 =~= seq![c1] + (sp1 + r1));
            assert(q2 =~= seq![c1] + (sp2 + r2));
            lemma_concat_cancel(seq![c1], sp1 + r1, sp2 + r2);
        },
        (None, None) => (),
        (Some(c1), None) => {
            assert(q1[0] == c1 && is_lower(c1));
            assert(q2.len() > 0 && (q2[0] == '_' || q2[0] == '-'));
            assert(false);
        },
        (None, Some(c2)) => {
            assert(q2[0] == c2 && is_lower(c2));
            assert(q1.len() > 0 && (q1[0] == '_' || q1[0] == '-'));
            assert(false);
        },
    }
    assert(sp1 + r1 == sp2 + r2);
    let w1 = sp1 + r1;
    assert(w1.len() == sp1.len() + r1.len());
    assert(w1.len() == sp2.len() + r2.len());
    if v1.suffixes.len() > 0 && v2.suffixes.len() > 0 {
        let jm1 = joined(v1.suffixes@.map_values(|x: VersionSuffix| x.spec_str()), seq!['_']);
        let jm2 = joined(v2.suffixes@.map_values(|x: VersionSuffix| x.spec_str()), seq!['_']);
        assert(sp1 + r1 =~= seq!['_'] + (jm1 + r1));
        assert(sp2 + r2 =~= seq!['_'] + (jm2 + r2));
        lemma_concat_cancel(seq!['_'], jm1 + r1, jm2 + r2);
        assert(r1.len() == 0 || r1[0] == '-');
        assert(r2.len() == 0 || r2[0] == '-');
        lemma_suffixes_unique(v1.suffixes@, r1, v2.suffixes@, r2);
    } else if v1.suffixes.len() > 0 {
        assert((sp1 + r1)[0] == '_');
        assert(sp2.len() == 0);
        if r2.len() > 0 {
            assert((sp2 + r2)[0] == r2[0]);
        }
        assert(false);
    } else if v2.suffixes.len() > 0 {
        assert((sp2 + r2)[0] == '_');
        assert(sp1.len() == 0);
        if r1.len() > 0 {
            assert((sp1 + r1)[0] == r1[0]);
        }
        assert(false);
    } else {
        assert(sp1 =~= sp2);
        lemma_concat_cancel(sp1, r1, r2);
    }
    assert(r1 == r2);
    match (v1.revision, v2.revision) {
        (Some(d1), Some(d2)) => {
            assert(r1.len() == 2 + d1@.len());
            assert(r2.len() == 2 + d2@.len());
            lemma_concat_cancel(seq!['-', 'r'], d1@, d2@);
        },
        (None, None) => (),
        (Some(d1), None) => {
            assert(r1.len() == 2 + d1@.len());
            assert(false);
        },
        (None, Some(d2)) => {
            assert(r2.len() == 2 + d2@.len());
            assert(false);
        },
    }
    assert(v1@.numbers == v2@.numbers);
    assert(v1@.letter == v2@.letter);
    assert(v1@.suffixes == v2@.suffixes);
    assert(v1@.revision == v2@.revision);
    assert(v1@ == v2@);
}

// ---------------------------------------------------------------------------
// Character shapes of canonical texts
// ---------------------------------------------------------------------------

/// A character that can appear in canonical version text.
pub open spec fn version_char(c: char) -> bool {
    is_digit(c) || c == '.' || is_lower(c) || c == '_' || c == '-'
}

/// A character that can appear in canonical slot text.
pub open spec fn slot_char(c: char) -> bool {
    is_word_char(c) || c == '/' || c == '*' || c == '='
}

/// A character that can appear in an atom's name-and-version region.
pub open spec fn mid_char(c: char) -> bool {
    is_alnum(c) || c == '-' || c == '_' || c == '+' || c == '.'
}

/// The name-and-version region character class, as a function value.
pub open spec fn mid_pred() -> spec_fn(char) -> bool {
    |c: char| mid_char(c)
}

/// The slot character class, as a function value.
pub open spec fn slot_char_pred() -> spec_fn(char) -> bool {
    |c: char| slot_char(c)
}

/// Every character of a join whose parts and separator satisfy `p` satisfies
/// `p`.
proof fn lemma_joined_chars(parts: Seq<Seq<char>>, sep: Seq<char>, p: spec_fn(char) -> bool)
    requires
        forall|i: int, j: int| 0 <= i < parts.len() && 0 <= j < parts[i].len() ==> p(
            #[trigger] parts[i][j],
        ),
        forall|j: int| 0 <= j < sep.len() ==> p(#[trigger] sep[j]),
    ensures
        forall|j: int| 0 <= j < joined(parts, sep).len() ==> p(#[trigger] joined(parts, sep)[j]),
    decreases parts.len(),
{
    if parts.len() == 0 {
    } else if parts.len() == 1 {
        assert forall|j: int| 0 <= j < joined(parts, sep).len() implies p(
            #[trigger] joined(parts, sep)[j],
        ) by {
            assert(joined(parts, sep)[j] == parts[0][j]);
        }
    } else {
        let tail = parts.drop_first();
        assert forall|i: int, j: int| 0 <= i < tail.len() && 0 <= j < tail[i].len() implies p(
            #[trigger] tail[i][j],
        ) by {
            assert(tail[i] == parts[i + 1]);
        }
        lemma_joined_chars(tail, sep, p);
        let a = parts[0];
        let jt = joined(tail, sep);
        assert(joined(parts, sep) == a + sep + jt);
        assert forall|j: int| 0 <= j < joined(parts, sep).len() implies p(
            #[trigger] joined(parts, sep)[j],
        ) by {
            if j < a.len() {
                assert(joined(parts, sep)[j] == (a + sep)[j]);
                assert((a + sep)[j] == a[j]);
                assert(p(parts[0][j]));
            } else if j < a.len() + sep.len() {
                assert(joined(parts, sep)[j] == (a + sep)[j]);
                assert((a + sep)[j] == sep[j - a.len()]);
            } else {
                assert(joined(parts, sep)[j] == jt[j - a.len() - sep.len()]);
            }
        }
    }
}

/// Every character of a suffix term's canonical text is a lowercase letter
/// or a digit.
proof fn lemma_suffix_term_chars(u: &VersionSuffix)
    requires
        u.wf(),
    ensures
        forall|j: int| 0 <= j < u.spec_str().len() ==> is_lower(#[trigger] u.spec_str()[j])
            || is_digit(u.spec_str()[j]),
{
    let k = suffix_kind_str(u.kind);
    let n = match u.number {
        Some(d) => d@,
        None => Seq::<char>::empty(),
    };
    let t = u.spec_str();
    assert(t == k + n);
    assert forall|j: int| 0 <= j < t.len() implies is_lower(#[trigger] t[j]) || is_digit(t[j]) by {
        if j < k.len() {
            assert(t[j] == k[j]);
            match u.kind {
                VersionSuffixKind::Alpha => {
                    assert(k[0] == 'a' && k[1] == 'l' && k[2] == 'p' && k[3] == 'h' && k[4] == 'a');
                },
                VersionSuffixKind::Beta => {
                    assert(k[0] == 'b' && k[1] == 'e' && k[2] == 't' && k[3] == 'a');
                },
                VersionSuffixKind::Pre => {
                    assert(k[0] == 'p' && k[1] == 'r' && k[2] == 'e');
                },
                VersionSuffixKind::Rc => {
                    assert(k[0] == 'r' && k[1] == 'c');
                },
                VersionSuffixKind::P => {
                    assert(k[0] == 'p');
                },
            }
        } else {
            assert(t[j] == n[j - k.len()]);
        }
    }
}

/// Canonical version text is non-empty, starts with a digit, holds only
/// version characters, and holds a `-` only immediately before the `r` of
/// its revision.
#[verifier::rlimit(100)]
#[verifier::spinoff_prover]
proof fn lemma_version_shape(v: &Version)
    requires
        v.wf(),
    ensures
        v.spec_str().len() >= 1,
        is_digit(v.spec_str()[0]),
        forall|j: int| 0 <= j < v.spec_str().len() ==> version_char(#[trigger] v.spec_str()[j]),
        forall|j: int| 0 <= j < v.spec_str().len() && #[trigger] v.spec_str()[j] == '-' ==> j + 1
            < v.spec_str().len() && v.spec_str()[j + 1] == 'r',
{
    let s = v.spec_str();
    let np = v.numbers@.map_values(|x: VersionNumber| x@);
    let a = joined(np, seq!['.']);
    let l = match v.letter {
        Some(c) => seq![c],
        None => Seq::<char>::empty(),
    };
    let sp = if v.suffixes.len() > 0 {
        seq!['_'] + joined(v.suffixes@.map_values(|x: VersionSuffix| x.spec_str()), seq!['_'])
    } else {
        Seq::<char>::empty()
    };
    let rp = match v.revision {
        Some(d) => seq!['-', 'r'] + d@,
        None => Seq::<char>::empty(),
    };
    let la = a.len() as int;
    let ll = l.len() as int;
    let ls = sp.len() as int;
    let lr = rp.len() as int;
    assert(s == a + l + sp + rp);
    assert(s.len() == la + ll + ls + lr);
    assert forall|j: int| 0 <= j < la implies s[j] == a[j] by {
        assert(s[j] == ((a + l) + sp + rp)[j]);
    }
    assert forall|j: int| 0 <= j < ll implies s[la + j] == l[j] by {
        assert(s[la + j] == ((a + l) + sp + rp)[la + j]);
    }
    assert forall|j: int| 0 <= j < ls implies s[la + ll + j] == sp[j] by {
        assert(s[la + ll + j] == ((a + l) + sp + rp)[la + ll + j]);
    }
    assert forall|j: int| 0 <= j < lr implies s[la + ll + ls + j] == rp[j] by {
        assert(s[la + ll + ls + j] == ((a + l) + sp + rp)[la + ll + ls + j]);
    }
    // Number characters: digits and dots.
    assert forall|i: int, j: int| 0 <= i < np.len() && 0 <= j < np[i].len() implies (|c: char|
        is_digit(c) || c == '.')(#[trigger] np[i][j]) by {
        assert(np[i] == v.numbers@[i]@);
        assert(vnum_ok(np[i]));
    }
    lemma_joined_chars(np, seq!['.'], |c: char| is_digit(c) || c == '.');
    // The text starts with the first digit of the first number.
    assert(vnum_ok(np[0]));
    if np.len() == 1 {
        assert(a == np[0]);
    } else {
        assert(a == np[0] + seq!['.'] + joined(np.drop_first(), seq!['.']));
        assert(a[0] == (np[0] + seq!['.'])[0]);
    }
    assert(is_digit(a[0]));
    assert(s[0] == a[0]);
    // Suffix characters: an underscore lead, then letters, digits, and
    // underscores.
    if ls > 0 {
        let m = v.suffixes@.map_values(|x: VersionSuffix| x.spec_str());
        assert forall|i: int, j: int| 0 <= i < m.len() && 0 <= j < m[i].len() implies (|c: char|
            is_lower(c) || is_digit(c) || c == '_')(#[trigger] m[i][j]) by {
            assert(m[i] == v.suffixes@[i].spec_str());
            lemma_suffix_term_chars(&v.suffixes@[i]);
        }
        lemma_joined_chars(m, seq!['_'], |c: char| is_lower(c) || is_digit(c) || c == '_');
        assert forall|j: int| 0 <= j < ls implies (is_lower(#[trigger] sp[j]) || is_digit(sp[j])
            || sp[j] == '_') by {
            if j == 0 {
                assert(sp[0] == '_');
            } else {
                assert(sp[j] == joined(m, seq!['_'])[j - 1]);
            }
        }
    }
    // Revision characters: `-`, `r`, digits.
    if lr > 0 {
        let d = match v.revision {
            Some(x) => x@,
            None => Seq::<char>::empty(),
        };
        assert(rp == seq!['-', 'r'] + d);
        assert(vnum_ok(d));
        assert forall|j: int| 0 <= j < lr implies (#[trigger] rp[j] == '-' ==> j == 0) && (j == 1
            ==> rp[j] == 'r') && version_char(rp[j]) by {
            if j < 2 {
                assert(rp[j] == (seq!['-', 'r'])[j]);
            } else {
                assert(rp[j] == d[j - 2]);
            }
        }
    }
    assert forall|j: int| 0 <= j < s.len() implies version_char(#[trigger] s[j]) by {
        if j < la {
            assert(s[j] == a[j]);
        } else if j < la + ll {
            assert(s[j] == l[j - la]);
            assert(is_lower(l[0]));
        } else if j < la + ll + ls {
            assert(s[j] == sp[j - la - ll]);
        } else {
            assert(s[j] == rp[j - la - ll - ls]);
        }
    }
    assert forall|j: int| 0 <= j < s.len() && #[trigger] s[j] == '-' implies j + 1 < s.len() && s[j
        + 1] == 'r' by {
        if j < la {
            assert(s[j] == a[j]);
            assert(false);
        } else if j < la + ll {
            assert(s[j] == l[j - la]);
            assert(is_lower(l[0]));
            assert(false);
        } else if j < la + ll + ls {
            assert(s[j] == sp[j - la - ll]);
            assert(false);
        } else {
            assert(s[j] == rp[j - la - ll - ls]);
            assert(j == la + ll + ls);
            assert(lr >= 2);
            assert(s[j + 1] == rp[1]);
        }
    }
}

/// Canonical slot text is non-empty and holds only slot characters.
proof fn lemma_slot_shape(sl: &Slot)
    requires
        sl.wf(),
    ensures
        sl.spec_str().len() >= 1,
        forall|j: int| 0 <= j < sl.spec_str().len() ==> slot_char(#[trigger] sl.spec_str()[j]),
{
    let p = sl.primary@;
    let u = match sl.sub {
        Some(x) => seq!['/'] + x@,
        None => Seq::<char>::empty(),
    };
    let o = match sl.operator {
        Some(SlotOperator::Eq) => seq!['='],
        None => Seq::<char>::empty(),
    };
    let t = sl.spec_str();
    assert(t == p + u + o);
    assert(t.len() == p.len() + u.len() + o.len());
    assert forall|j: int| 0 <= j < t.len() implies slot_char(#[trigger] t[j]) by {
        if j < p.len() {
            assert(t[j] == (p + u)[j]);
            assert((p + u)[j] == p[j]);
            if slot_ident_ok(p) {
            } else if p =~= seq!['*'] {
                assert(p[j] == '*');
            }
        } else if j < p.len() + u.len() {
            assert(t[j] == (p + u)[j]);
            assert((p + u)[j] == u[j - p.len()]);
            match sl.sub {
                Some(x) => {
                    if j - p.len() == 0 {
                        assert(u[0] == '/');
                    } else {
                        assert(u[j - p.len()] == x@[j - p.len() - 1]);
                        assert(slot_ident_ok(x@));
                    }
                },
                None => {
                    assert(false);
                },
            }
        } else {
            assert(t[j] == o[j - p.len() - u.len()]);
            assert(o[0] == '=');
        }
    }
    if p.len() == 0 {
        assert(sl.operator == Some(SlotOperator::Eq));
        assert(o.len() == 1);
    }
}

/// Comma-joined USE-dependency texts followed by a remainder that starts
/// with a stopping character are read back uniquely.
#[verifier::rlimit(80)]
proof fn lemma_usedep_list_unique(l1: Seq<UseDep>, x: Seq<char>, l2: Seq<UseDep>, y: Seq<char>)
    requires
        l1.len() >= 1,
        l2.len() >= 1,
        forall|i: int| 0 <= i < l1.len() ==> (#[trigger] l1[i]).wf(),
        forall|i: int| 0 <= i < l2.len() ==> (#[trigger] l2[i]).wf(),
        joined(l1.map_values(|z: UseDep| z.spec_str()), seq![',']) + x == joined(
            l2.map_values(|z: UseDep| z.spec_str()),
            seq![','],
        ) + y,
        x.len() == 0 || (usedep_stop(x[0]) && x[0] != ','),
        y.len() == 0 || (usedep_stop(y[0]) && y[0] != ','),
    ensures
        l1.map_values(|z: UseDep| z@) == l2.map_values(|z: UseDep| z@),
        x == y,
    decreases l1.len(),
{
    let m1 = l1.map_values(|z: UseDep| z.spec_str());
    let m2 = l2.map_values(|z: UseDep| z.spec_str());
    let a = m1[0];
    let b = m2[0];
    assert(a == l1[0].spec_str());
    assert(b == l2[0].spec_str());
    let j1 = joined(m1.drop_first(), seq![',']);
    let j2 = joined(m2.drop_first(), seq![',']);
    let x1 = if l1.len() == 1 {
        x
    } else {
        (seq![','] + j1) + x
    };
    let x2 = if l2.len() == 1 {
        y
    } else {
        (seq![','] + j2) + y
    };
    if l1.len() == 1 {
        assert(joined(m1, seq![',']) == a);
    } else {
        assert(m1.len() == l1.len());
        assert(joined(m1, seq![',']) == a + seq![','] + j1);
        assert((seq![','] + j1).len() == 1 + j1.len());
        assert(x1.len() == 1 + j1.len() + x.len());
        assert(x1[0] == ',');
    }
    if l2.len() == 1 {
        assert(joined(m2, seq![',']) == b);
    } else {
        assert(m2.len() == l2.len());
        assert(joined(m2, seq![',']) == b + seq![','] + j2);
        assert((seq![','] + j2).len() == 1 + j2.len());
        assert(x2.len() == 1 + j2.len() + y.len());
        assert(x2[0] == ',');
    }
    assert(joined(m1, seq![',']) + x =~= a + x1);
    assert(joined(m2, seq![',']) + y =~= b + x2);
    assert(x1.len() == 0 || usedep_stop(x1[0]));
    assert(x2.len() == 0 || usedep_stop(x2[0]));
    assert(l1[0].spec_str() + x1 == l2[0].spec_str() + x2);
    lemma_usedep_tailed_unique(&l1[0], x1, &l2[0], x2);
    if l1.len() == 1 && l2.len() == 1 {
        assert(l1.map_values(|z: UseDep| z@) =~= l2.map_values(|z: UseDep| z@));
    } else if l1.len() > 1 && l2.len() > 1 {
        assert(x1 =~= seq![','] + (j1 + x));
        assert(x2 =~= seq![','] + (j2 + y));
        lemma_concat_cancel(seq![','], j1 + x, j2 + y);
        assert(m1.drop_first() =~= l1.drop_first().map_values(|z: UseDep| z.spec_str()));
        assert(m2.drop_first() =~= l2.drop_first().map_values(|z: UseDep| z.spec_str()));
        assert forall|i: int| 0 <= i < l1.drop_first().len() implies (#[trigger] l1.drop_first()[i]).wf() by {
            assert(l1.drop_first()[i] == l1[i + 1]);
        }
        assert forall|i: int| 0 <= i < l2.drop_first().len() implies (#[trigger] l2.drop_first()[i]).wf() by {
            assert(l2.drop_first()[i] == l2[i + 1]);
        }
        lemma_usedep_list_unique(l1.drop_first(), x, l2.drop_first(), y);
        let w1 = l1.map_values(|z: UseDep| z@);
        let w2 = l2.map_values(|z: UseDep| z@);
        let d1 = l1.drop_first().map_values(|z: UseDep| z@);
        let d2 = l2.drop_first().map_values(|z: UseDep| z@);
        assert(d1.len() == d2.len());
        assert(w1.len() == w2.len());
        assert forall|i: int| 0 <= i < w1.len() implies w1[i] == w2[i] by {
            if i == 0 {
                assert(w1[0] == l1[0]@);
                assert(w2[0] == l2[0]@);
            } else {
                assert(w1[i] == l1[i]@);
                assert(l1[i] == l1.drop_first()[i - 1]);
                assert(d1[i - 1] == l1.drop_first()[i - 1]@);
                assert(w2[i] == l2[i]@);
                assert(l2[i] == l2.drop_first()[i - 1]);
                assert(d2[i - 1] == l2.drop_first()[i - 1]@);
            }
        }
        assert(w1 =~= w2);
    } else if l1.len() > 1 {
        assert(x1[0] == ',');
        assert(x2 == y);
        assert(false);
    } else {
        assert(x2[0] == ',');
        assert(x1 == x);
        assert(false);
    }
}

// ---------------------------------------------------------------------------
// Canonical atom text is unambiguous
// ---------------------------------------------------------------------------

/// The canonical text of an optional blocker.
pub open spec fn opt_blocker_str(x: Option<Blocker>) -> Seq<char> {
    match x {
        Some(b) => blocker_str(b),
        None => Seq::<char>::empty(),
    }
}

/// The canonical text of an optional version operator.
pub open spec fn opt_vop_str(x: Option<VersionOperator>) -> Seq<char> {
    match x {
        Some(o) => vop_str(o),
        None => Seq::<char>::empty(),
    }
}

/// The canonical text of an optional `-version` tail.
pub open spec fn opt_version_part(x: Option<Version>) -> Seq<char> {
    match x {
        Some(v) => seq!['-'] + v.spec_str(),
        None => Seq::<char>::empty(),
    }
}

/// The canonical text of an optional `:slot` tail.
pub open spec fn opt_slot_part(x: Option<Slot>) -> Seq<char> {
    match x {
        Some(sl) => seq![':'] + sl.spec_str(),
        None => Seq::<char>::empty(),
    }
}

/// The canonical text of a possibly-empty bracketed USE-dependency list.
pub open spec fn deps_part(l: Seq<UseDep>) -> Seq<char> {
    if l.len() > 0 {
        seq!['['] + joined(l.map_values(|z: UseDep| z.spec_str()), seq![',']) + seq![']']
    } else {
        Seq::<char>::empty()
    }
}

/// The pure content of an atom, for stating laws.
pub ghost struct AtomModel {
    pub blocker: Option<Blocker>,
    pub version_operator: Option<VersionOperator>,
    pub category: Seq<char>,
    pub name: Seq<char>,
    pub version: Option<VersionModel>,
    pub slot: Option<SlotModel>,
    pub usedeps: Seq<UseDepModel>,
}

impl View for Atom {
    type V = AtomModel;

    open spec fn view(&self) -> AtomModel {
        AtomModel {
            blocker: self.blocker,
            version_operator: self.version_operator,
            category: self.category@,
            name: self.name@,
            version: match self.version {
                Some(v) => Some(v@),
                None => None,
            },
            slot: match self.slot {
                Some(sl) => Some(sl@),
                None => None,
            },
            usedeps: self.usedeps@.map_values(|z: UseDep| z@),
        }
    }
}

/// A name-and-version region is read back uniquely: the boundary-resolution
/// policy rejects any name that could swallow a trailing version.
#[verifier::rlimit(100)]
#[verifier::spinoff_prover]
proof fn lemma_mid_unique(n1: Seq<char>, v1: Option<Version>, n2: Seq<char>, v2: Option<Version>)
    requires
        parsers::name_ok(n1),
        parsers::name_ok(n2),
        v1 matches Some(a) ==> a.wf(),
        v2 matches Some(a) ==> a.wf(),
        n1 + opt_version_part(v1) == n2 + opt_version_part(v2),
    ensures
        n1 == n2,
        match (v1, v2) {
            (Some(a), Some(b)) => a@ == b@,
            (None, None) => true,
            _ => false,
        },
{
    let vp1 = opt_version_part(v1);
    let vp2 = opt_version_part(v2);
    let m = n1 + vp1;
    assert(m.len() == n1.len() + vp1.len());
    assert(m.len() == n2.len() + vp2.len());
    assert forall|j: int| 0 <= j < n1.len() implies m[j] == n1[j] by {
        assert((n1 + vp1)[j] == n1[j]);
    }
    assert forall|j: int| 0 <= j < vp1.len() implies m[n1.len() + j] == vp1[j] by {
        assert((n1 + vp1)[n1.len() + j] == vp1[j]);
    }
    assert forall|j: int| 0 <= j < n2.len() implies m[j] == n2[j] by {
        assert((n2 + vp2)[j] == n2[j]);
    }
    assert forall|j: int| 0 <= j < vp2.len() implies m[n2.len() + j] == vp2[j] by {
        assert((n2 + vp2)[n2.len() + j] == vp2[j]);
    }
    if n1.len() == n2.len() {
        assert(n1 =~= n2);
        lemma_concat_cancel(n1, vp1, vp2);
        match (v1, v2) {
            (Some(a), Some(b)) => {
                assert(vp1.len() == 1 + a.spec_str().len());
                assert(vp2.len() == 1 + b.spec_str().len());
                lemma_concat_cancel(seq!['-'], a.spec_str(), b.spec_str());
                lemma_version_str_unique(&a, &b);
            },
            (None, None) => (),
            (Some(a), None) => {
                assert(vp1.len() == 1 + a.spec_str().len());
                assert(false);
            },
            (None, Some(b)) => {
                assert(vp2.len() == 1 + b.spec_str().len());
                assert(false);
            },
        }
    } else if n1.len() < n2.len() {
        // The shorter split's version must exist, and the longer name would
        // keep a version-shaped tail, which well-formedness forbids.
        match v1 {
            None => {
                assert(vp1.len() == 0);
                assert(false);
            },
            Some(a) => {
                assert(vp1.len() == 1 + a.spec_str().len());
                assert(m[n1.len() as int] == vp1[0]);
                assert(vp1[0] == '-');
                lemma_version_shape(&a);
                match v2 {
                    None => {
                        assert(vp2.len() == 0);
                        assert(n2 =~= m);
                        assert(n2.subrange(n1.len() as int + 1, n2.len() as int) =~= a.spec_str()) by {
                            assert forall|j: int|
                                0 <= j < n2.len() - n1.len() - 1 implies n2.subrange(
                                n1.len() as int + 1,
                                n2.len() as int,
                            )[j] == a.spec_str()[j] by {
                                assert(n2.subrange(n1.len() as int + 1, n2.len() as int)[j] == m[n1.len()
                                    + 1 + j]);
                                assert(m[n1.len() + (1 + j)] == vp1[1 + j]);
                                assert(vp1[1 + j] == (seq!['-'] + a.spec_str())[1 + j]);
                            }
                        }
                        crate::atom::parsers::lemma_version_render_parses(
                            n2,
                            n1.len() as int + 1,
                            &a,
                        );
                        assert(parsers::rej_at(n2, n1.len() as int));
                        assert(parsers::name_rejected(n2));
                        assert(false);
                    },
                    Some(b) => {
                        lemma_version_shape(&b);
                        assert(vp2.len() == 1 + b.spec_str().len());
                        // The dash opening the longer split's version sits
                        // inside the shorter split's version, where a dash is
                        // always followed by `r`; but a version begins with a
                        // digit.
                        let d = n2.len() - n1.len() - 1;
                        assert(m[n2.len() as int] == vp2[0]);
                        assert(vp2[0] == '-');
                        assert(m[n1.len() + (1 + d)] == vp1[1 + d]);
                        assert(vp1[1 + d] == (seq!['-'] + a.spec_str())[1 + d]);
                        assert(a.spec_str()[d] == '-');
                        assert(a.spec_str()[d + 1] == 'r');
                        assert(m[n1.len() + (1 + d + 1)] == vp1[1 + d + 1]);
                        assert(vp1[1 + d + 1] == (seq!['-'] + a.spec_str())[1 + d + 1]);
                        assert(m[n2.len() as int + 1] == 'r');
                        assert(m[n2.len() as int + 1] == vp2[1]);
                        assert(vp2[1] == (seq!['-'] + b.spec_str())[1]);
                        assert(b.spec_str()[0] == 'r');
                        assert(is_digit(b.spec_str()[0]));
                        assert(false);
                    },
                }
            },
        }
    } else {
        // Symmetric to the previous case.
        match v2 {
            None => {
                assert(vp2.len() == 0);
                assert(false);
            },
            Some(b) => {
                assert(vp2.len() == 1 + b.spec_str().len());
                assert(m[n2.len() as int] == vp2[0]);
                assert(vp2[0] == '-');
                lemma_version_shape(&b);
                match v1 {
                    None => {
                        assert(vp1.len() == 0);
                        assert(n1 =~= m);
                        assert(n1.subrange(n2.len() as int + 1, n1.len() as int) =~= b.spec_str()) by {
                            assert forall|j: int|
                                0 <= j < n1.len() - n2.len() - 1 implies n1.subrange(
                                n2.len() as int + 1,
                                n1.len() as int,
                            )[j] == b.spec_str()[j] by {
                                assert(n1.subrange(n2.len() as int + 1, n1.len() as int)[j] == m[n2.len()
                                    + 1 + j]);
                                assert(m[n2.len() + (1 + j)] == vp2[1 + j]);
                                assert(vp2[1 + j] == (seq!['-'] + b.spec_str())[1 + j]);
                            }
                        }
                        crate::atom::parsers::lemma_version_render_parses(
                            n1,
                            n2.len() as int + 1,
                            &b,
                        );
                        assert(parsers::rej_at(n1, n2.len() as int));
                        assert(parsers::name_rejected(n1));
                        assert(false);
                    },
                    Some(a) => {
                        lemma_version_shape(&a);
                        assert(vp1.len() == 1 + a.spec_str().len());
                        let d = n1.len() - n2.len() - 1;
                        assert(m[n1.len() as int] == vp1[0]);
                        assert(vp1[0] == '-');
                        assert(m[n2.len() + (1 + d)] == vp2[1 + d]);
                        assert(vp2[1 + d] == (seq!['-'] + b.spec_str())[1 + d]);
                        assert(b.spec_str()[d] == '-');
                        assert(b.spec_str()[d + 1] == 'r');
                        assert(m[n2.len() + (1 + d + 1)] == vp2[1 + d + 1]);
                        assert(vp2[1 + d + 1] == (seq!['-'] + b.spec_str())[1 + d + 1]);
                        assert(m[n1.len() as int + 1] == 'r');
                        assert(m[n1.len() as int + 1] == vp1[1]);
                        assert(vp1[1] == (seq!['-'] + a.spec_str())[1]);
                        assert(a.spec_str()[0] == 'r');
                        assert(is_digit(a.spec_str()[0]));
                        assert(false);
                    },
                }
            },
        }
    }
}

/// The operator text of every version operator is non-empty; its first
/// character and length name the operator (with `<` and `>` each shared by
/// two).
proof fn lemma_vop_shape(o: VersionOperator)
    ensures
        vop_str(o).len() >= 1,
        vop_str(o)[0] == (match o {
            VersionOperator::Eq => '=',
            VersionOperator::Lt => '<',
            VersionOperator::LtEq => '<',
            VersionOperator::Gt => '>',
            VersionOperator::GtEq => '>',
            VersionOperator::Roughly => '~',
        }),
        vop_str(o).len() == (match o {
            VersionOperator::LtEq => 2int,
            VersionOperator::GtEq => 2int,
            _ => 1int,
        }),
        o == VersionOperator::LtEq || o == VersionOperator::GtEq ==> vop_str(o)[1] == '=',
{
}

/// The canonical text of an atom laid out as its eight adjacent regions.
#[verifier::rlimit(100)]
#[verifier::spinoff_prover]
proof fn lemma_atom_regions(a: &Atom)
    ensures
        ({
            let b = opt_blocker_str(a.blocker);
            let o = opt_vop_str(a.version_operator);
            let c = a.category@;
            let n = a.name@;
            let v = opt_version_part(a.version);
            let sl = opt_slot_part(a.slot);
            let d = deps_part(a.usedeps@);
            let t = a.spec_str();
            let lb = b.len() as int;
            let lo = o.len() as int;
            let lc = c.len() as int;
            let ln = n.len() as int;
            let lv = v.len() as int;
            let lsl = sl.len() as int;
            let ld = d.len() as int;
            &&& t.len() == lb + lo + lc + 1 + ln + lv + lsl + ld
            &&& t.subrange(0, lb) == b
            &&& t.subrange(lb, lb + lo) == o
            &&& t.subrange(lb + lo, lb + lo + lc) == c
            &&& t[lb + lo + lc] == '/'
            &&& t.subrange(lb + lo + lc + 1, lb + lo + lc + 1 + ln) == n
            &&& t.subrange(lb + lo + lc + 1 + ln, lb + lo + lc + 1 + ln + lv) == v
            &&& t.subrange(lb + lo + lc + 1 + ln + lv, lb + lo + lc + 1 + ln + lv + lsl) == sl
            &&& t.subrange(lb + lo + lc + 1 + ln + lv + lsl, t.len() as int) == d
        }),
{
    let b = opt_blocker_str(a.blocker);
    let o = opt_vop_str(a.version_operator);
    let c = a.category@;
    let n = a.name@;
    let v = opt_version_part(a.version);
    let sl = opt_slot_part(a.slot);
    let d = deps_part(a.usedeps@);
    let t = a.spec_str();
    assert(t == b + o + c + seq!['/'] + n + v + sl + d);
    let p1 = b + o;
    let p2 = p1 + c;
    let p3 = p2 + seq!['/'];
    let p4 = p3 + n;
    let p5 = p4 + v;
    let p6 = p5 + sl;
    assert(p1.len() == b.len() + o.len());
    assert(p2.len() == p1.len() + c.len());
    assert(p3.len() == p2.len() + 1);
    assert(p4.len() == p3.len() + n.len());
    assert(p5.len() == p4.len() + v.len());
    assert(p6.len() == p5.len() + sl.len());
    assert(t.len() == p6.len() + d.len());
    assert(t.subrange(0, b.len() as int) =~= b) by {
        assert forall|j: int| 0 <= j < b.len() implies t[j] == b[j] by {
            assert(t[j] == p6[j]);
            assert(p6[j] == p5[j]);
            assert(p5[j] == p4[j]);
            assert(p4[j] == p3[j]);
            assert(p3[j] == p2[j]);
            assert(p2[j] == p1[j]);
            assert(p1[j] == b[j]);
        }
    }
    assert(t.subrange(b.len() as int, p1.len() as int) =~= o) by {
        assert forall|j: int| 0 <= j < o.len() implies t[b.len() + j] == o[j] by {
            assert(t[b.len() + j] == p6[b.len() + j]);
            assert(p6[b.len() + j] == p5[b.len() + j]);
            assert(p5[b.len() + j] == p4[b.len() + j]);
            assert(p4[b.len() + j] == p3[b.len() + j]);
            assert(p3[b.len() + j] == p2[b.len() + j]);
            assert(p2[b.len() + j] == p1[b.len() + j]);
            assert(p1[b.len() + j] == o[j]);
        }
    }
    assert(t.subrange(p1.len() as int, p2.len() as int) =~= c) by {
        assert forall|j: int| 0 <= j < c.len() implies t[p1.len() + j] == c[j] by {
            assert(t[p1.len() + j] == p6[p1.len() + j]);
            assert(p6[p1.len() + j] == p5[p1.len() + j]);
            assert(p5[p1.len() + j] == p4[p1.len() + j]);
            assert(p4[p1.len() + j] == p3[p1.len() + j]);
            assert(p3[p1.len() + j] == p2[p1.len() + j]);
            assert(p2[p1.len() + j] == c[j]);
        }
    }
    assert(t[p2.len() as int] == '/') by {
        assert(t[p2.len() as int] == p6[p2.len() as int]);
        assert(p6[p2.len() as int] == p5[p2.len() as int]);
        assert(p5[p2.len() as int] == p4[p2.len() as int]);
        assert(p4[p2.len() as int] == p3[p2.len() as int]);
        assert(p3[p2.len() as int] == seq!['/'][0]);
    }
    assert(t.subrange(p3.len() as int, p4.len() as int) =~= n) by {
        assert forall|j: int| 0 <= j < n.len() implies t[p3.len() + j] == n[j] by {
            assert(t[p3.len() + j] == p6[p3.len() + j]);
            assert(p6[p3.len() + j] == p5[p3.len() + j]);
            assert(p5[p3.len() + j] == p4[p3.len() + j]);
            assert(p4[p3.len() + j] == n[j]);
        }
    }
    assert(t.subrange(p4.len() as int, p5.len() as int) =~= v) by {
        assert forall|j: int| 0 <= j < v.len() implies t[p4.len() + j] == v[j] by {
            assert(t[p4.len() + j] == p6[p4.len() + j]);
            assert(p6[p4.len() + j] == p5[p4.len() + j]);
            assert(p5[p4.len() + j] == v[j]);
        }
    }
    assert(t.subrange(p5.len() as int, p6.len() as int) =~= sl) by {
        assert forall|j: int| 0 <= j < sl.len() implies t[p5.len() + j] == sl[j] by {
            assert(t[p5.len() + j] == p6[p5.len() + j]);
            assert(p6[p5.len() + j] == sl[j]);
        }
    }
    assert(t.subrange(p6.len() as int, t.len() as int) =~= d) by {
        assert forall|j: int| 0 <= j < d.len() implies t[p6.len() + j] == d[j] by {
            assert(t[p6.len() + j] == d[j]);
        }
    }
}

/// The blocker, operator, and category of canonical atom text are read off
/// its front.
#[verifier::rlimit(100)]
#[verifier::spinoff_prover]
proof fn lemma_atom_front_unique(a1: &Atom, a2: &Atom)
    requires
        a1.wf(),
        a2.wf(),
        a1.spec_str() == a2.spec_str(),
    ensures
        a1.blocker == a2.blocker,
        a1.version_operator == a2.version_operator,
        a1.category@ == a2.category@,
{
    let t = a1.spec_str();
    let b1 = opt_blocker_str(a1.blocker);
    let b2 = opt_blocker_str(a2.blocker);
    let o1 = opt_vop_str(a1.version_operator);
    let o2 = opt_vop_str(a2.version_operator);
    let c1 = a1.category@;
    let c2 = a2.category@;
    let n1 = a1.name@;
    let n2 = a2.name@;
    let v1 = opt_version_part(a1.version);
    let v2 = opt_version_part(a2.version);
    let s1 = opt_slot_part(a1.slot);
    let s2 = opt_slot_part(a2.slot);
    let d1 = deps_part(a1.usedeps@);
    let d2 = deps_part(a2.usedeps@);
    let lb1 = b1.len() as int;
    let lb2 = b2.len() as int;
    let lo1 = o1.len() as int;
    let lo2 = o2.len() as int;
    let lc1 = c1.len() as int;
    let lc2 = c2.len() as int;
    let ln1 = n1.len() as int;
    let ln2 = n2.len() as int;
    let lv1 = v1.len() as int;
    let lv2 = v2.len() as int;
    let ls1 = s1.len() as int;
    let ls2 = s2.len() as int;
    let ld1 = d1.len() as int;
    let ld2 = d2.len() as int;
    lemma_atom_regions(a1);
    lemma_atom_regions(a2);
    match a1.version_operator {
        Some(op) => lemma_vop_shape(op),
        None => (),
    }
    match a2.version_operator {
        Some(op) => lemma_vop_shape(op),
        None => (),
    }
    // The category starts with a word character; no operator or blocker
    // character does, so the blocker and operator are read off the first
    // characters.
    assert(is_word_start(c1[0]) && lc1 >= 1);
    assert(is_word_start(c2[0]) && lc2 >= 1);
    assert(t[lb1 + lo1 + 0] == c1[0]) by {
        assert(t.subrange(lb1 + lo1, lb1 + lo1 + lc1)[0] == t[lb1
            + lo1 + 0]);
    }
    assert(t[lb2 + lo2 + 0] == c2[0]) by {
        assert(t.subrange(lb2 + lo2, lb2 + lo2 + lc2)[0] == t[lb2
            + lo2 + 0]);
    }
    assert(lb1 > 0 ==> t[0] == b1[0]) by {
        if lb1 > 0 {
            assert(t.subrange(0, lb1)[0] == t[0]);
        }
    }
    assert(lb2 > 0 ==> t[0] == b2[0]) by {
        if lb2 > 0 {
            assert(t.subrange(0, lb2)[0] == t[0]);
        }
    }
    assert(lo1 > 0 ==> t[lb1] == o1[0]) by {
        if lo1 > 0 {
            assert(t.subrange(lb1, lb1 + lo1)[0] == t[lb1]);
        }
    }
    assert(lo2 > 0 ==> t[lb2] == o2[0]) by {
        if lo2 > 0 {
            assert(t.subrange(lb2, lb2 + lo2)[0] == t[lb2]);
        }
    }
    assert(lb1 == 2 ==> t[1] == b1[1]) by {
        if lb1 == 2 {
            assert(t.subrange(0, lb1)[1] == t[1]);
        }
    }
    assert(lb2 == 2 ==> t[1] == b2[1]) by {
        if lb2 == 2 {
            assert(t.subrange(0, lb2)[1] == t[1]);
        }
    }
    match (a1.blocker, a2.blocker) {
        (Some(Blocker::Weak), Some(Blocker::Weak)) => (),
        (Some(Blocker::Strong), Some(Blocker::Strong)) => (),
        (None, None) => (),
        (Some(Blocker::Weak), Some(Blocker::Strong)) => {
            assert(t[1] == '!');
            assert(false);
        },
        (Some(Blocker::Strong), Some(Blocker::Weak)) => {
            assert(t[1] == '!');
            assert(false);
        },
        (Some(_), None) => {
            assert(t[0] == '!');
            assert(false);
        },
        (None, Some(_)) => {
            assert(t[0] == '!');
            assert(false);
        },
    }
    assert(a1.blocker == a2.blocker);
    assert(b1 == b2);
    let lb = lb1;
    assert(lo1 == 2 ==> t[lb + 1] == o1[1]) by {
        if lo1 == 2 {
            assert(t.subrange(lb, lb + lo1)[1] == t[lb + 1]);
        }
    }
    assert(lo2 == 2 ==> t[lb + 1] == o2[1]) by {
        if lo2 == 2 {
            assert(t.subrange(lb, lb + lo2)[1] == t[lb + 1]);
        }
    }
    match (a1.version_operator, a2.version_operator) {
        (None, None) => (),
        (Some(x), Some(y)) => {
            if x != y {
                if lo1 == 1 && lo2 == 1 {
                    assert(t[lb] == o1[0]);
                    assert(t[lb] == o2[0]);
                    assert(false);
                } else if lo1 == 2 && lo2 == 2 {
                    assert(t[lb] == o1[0]);
                    assert(t[lb] == o2[0]);
                    assert(false);
                } else if lo1 == 1 {
                    // The longer operator's `=` would have to start a
                    // category.
                    assert(t[lb + 1] == o2[1]);
                    assert(t[lb + 1] == c1[0]);
                    assert(false);
                } else {
                    assert(t[lb + 1] == o1[1]);
                    assert(t[lb + 1] == c2[0]);
                    assert(false);
                }
            }
        },
        (Some(_), None) => {
            assert(t[lb] == o1[0]);
            assert(t[lb] == c2[0]);
            assert(false);
        },
        (None, Some(_)) => {
            assert(t[lb] == o2[0]);
            assert(t[lb] == c1[0]);
            assert(false);
        },
    }
    assert(a1.version_operator == a2.version_operator);
    assert(o1 == o2);
    let p0 = lb + lo1;
    // The category is the maximal identifier run before the `/`.
    assert forall|j: int| p0 <= j < p0 + lc1 implies word_pred()(#[trigger] t[j]) by {
        assert(t.subrange(p0, p0 + lc1)[j - p0] == t[j]);
        assert(c1[j - p0] == t[j]);
    }
    assert forall|j: int| p0 <= j < p0 + lc2 implies word_pred()(#[trigger] t[j]) by {
        assert(t.subrange(p0, p0 + lc2)[j - p0] == t[j]);
        assert(c2[j - p0] == t[j]);
    }
    assert(!word_pred()('/'));
    lemma_run_end_is_util(t, p0, p0 + lc1, word_pred());
    lemma_run_end_is_util(t, p0, p0 + lc2, word_pred());
    assert(lc1 == lc2);
    assert(c1 =~= c2) by {
        assert forall|j: int| 0 <= j < lc1 implies c1[j] == c2[j] by {
            assert(t.subrange(p0, p0 + lc1)[j] == t[p0 + j]);
            assert(t.subrange(p0, p0 + lc2)[j] == t[p0 + j]);
        }
    }
}

/// The name and version of canonical atom text are read back uniquely once
/// its front is fixed.
#[verifier::rlimit(100)]
#[verifier::spinoff_prover]
proof fn lemma_atom_middle_unique(a1: &Atom, a2: &Atom)
    requires
        a1.wf(),
        a2.wf(),
        a1.spec_str() == a2.spec_str(),
        a1.blocker == a2.blocker,
        a1.version_operator == a2.version_operator,
        a1.category@ == a2.category@,
    ensures
        a1.name@ == a2.name@,
        match (a1.version, a2.version) {
            (Some(x), Some(y)) => x@ == y@,
            (None, None) => true,
            _ => false,
        },
        a1.name@.len() + opt_version_part(a1.version).len() == a2.name@.len()
            + opt_version_part(a2.version).len(),
{
    let t = a1.spec_str();
    let b1 = opt_blocker_str(a1.blocker);
    let b2 = opt_blocker_str(a2.blocker);
    let o1 = opt_vop_str(a1.version_operator);
    let o2 = opt_vop_str(a2.version_operator);
    let c1 = a1.category@;
    let c2 = a2.category@;
    let n1 = a1.name@;
    let n2 = a2.name@;
    let v1 = opt_version_part(a1.version);
    let v2 = opt_version_part(a2.version);
    let s1 = opt_slot_part(a1.slot);
    let s2 = opt_slot_part(a2.slot);
    let d1 = deps_part(a1.usedeps@);
    let d2 = deps_part(a2.usedeps@);
    let lb1 = b1.len() as int;
    let lb2 = b2.len() as int;
    let lo1 = o1.len() as int;
    let lo2 = o2.len() as int;
    let lc1 = c1.len() as int;
    let lc2 = c2.len() as int;
    let ln1 = n1.len() as int;
    let ln2 = n2.len() as int;
    let lv1 = v1.len() as int;
    let lv2 = v2.len() as int;
    let ls1 = s1.len() as int;
    let ls2 = s2.len() as int;
    let ld1 = d1.len() as int;
    let ld2 = d2.len() as int;
    lemma_atom_regions(a1);
    lemma_atom_regions(a2);
    let lb = lb1;
    let p0 = lb + lo1;
    let q0 = p0 + lc1 + 1;
    // The name-and-version region is the maximal run of its characters
    // before the slot, the bracket, or the end.
    match a1.version {
        Some(v) => lemma_version_shape(&v),
        None => (),
    }
    match a2.version {
        Some(v) => lemma_version_shape(&v),
        None => (),
    }
    let lm1 = ln1 + lv1;
    let lm2 = ln2 + lv2;
    assert forall|j: int| q0 <= j < q0 + lm1 implies mid_pred()(#[trigger] t[j]) by {
        if j < q0 + ln1 {
            assert(t.subrange(q0, q0 + ln1)[j - q0] == t[j]);
            assert(n1[j - q0] == t[j]);
        } else {
            assert(t.subrange(q0 + ln1, q0 + lm1)[j - q0 - ln1] == t[j]);
            assert(v1[j - q0 - ln1] == t[j]);
            match a1.version {
                Some(v) => {
                    if j - q0 - ln1 > 0 {
                        assert(v1[j - q0 - ln1] == (seq!['-'] + v.spec_str())[j - q0
                            - ln1]);
                        assert(version_char(v.spec_str()[j - q0 - ln1 - 1]));
                    } else {
                        assert(v1[0] == (seq!['-'] + v.spec_str())[0]);
                    }
                },
                None => {
                    assert(false);
                },
            }
        }
    }
    assert forall|j: int| q0 <= j < q0 + lm2 implies mid_pred()(#[trigger] t[j]) by {
        if j < q0 + ln2 {
            assert(t.subrange(q0, q0 + ln2)[j - q0] == t[j]);
            assert(n2[j - q0] == t[j]);
        } else {
            assert(t.subrange(q0 + ln2, q0 + lm2)[j - q0 - ln2] == t[j]);
            assert(v2[j - q0 - ln2] == t[j]);
            match a2.version {
                Some(v) => {
                    if j - q0 - ln2 > 0 {
                        assert(v2[j - q0 - ln2] == (seq!['-'] + v.spec_str())[j - q0
                            - ln2]);
                        assert(version_char(v.spec_str()[j - q0 - ln2 - 1]));
                    } else {
                        assert(v2[0] == (seq!['-'] + v.spec_str())[0]);
                    }
                },
                None => {
                    assert(false);
                },
            }
        }
    }
    match a1.slot {
        Some(sl) => lemma_slot_shape(&sl),
        None => (),
    }
    match a2.slot {
        Some(sl) => lemma_slot_shape(&sl),
        None => (),
    }
    assert(q0 + lm1 == t.len() || !mid_pred()(t[q0 + lm1])) by {
        if ls1 > 0 {
            assert(t.subrange(q0 + lm1, q0 + lm1 + ls1)[0] == t[q0 + lm1]);
            assert(s1[0] == ':');
        } else if ld1 > 0 {
            assert(t.subrange(q0 + lm1, t.len() as int)[0] == t[q0 + lm1]);
            assert(d1[0] == '[') by {
                assert(d1 == seq!['['] + joined(
                    a1.usedeps@.map_values(|z: UseDep| z.spec_str()),
                    seq![','],
                ) + seq![']']);
                assert(d1[0] == (seq!['['] + joined(
                    a1.usedeps@.map_values(|z: UseDep| z.spec_str()),
                    seq![','],
                ))[0]);
            }
        }
    }
    assert(q0 + lm2 == t.len() || !mid_pred()(t[q0 + lm2])) by {
        if ls2 > 0 {
            assert(t.subrange(q0 + lm2, q0 + lm2 + ls2)[0] == t[q0 + lm2]);
            assert(s2[0] == ':');
        } else if ld2 > 0 {
            assert(t.subrange(q0 + lm2, t.len() as int)[0] == t[q0 + lm2]);
            assert(d2[0] == '[') by {
                assert(d2 == seq!['['] + joined(
                    a2.usedeps@.map_values(|z: UseDep| z.spec_str()),
                    seq![','],
                ) + seq![']']);
                assert(d2[0] == (seq!['['] + joined(
                    a2.usedeps@.map_values(|z: UseDep| z.spec_str()),
                    seq![','],
                ))[0]);
            }
        }
    }
    lemma_run_end_is_util(t, q0, q0 + lm1, mid_pred());
    lemma_run_end_is_util(t, q0, q0 + lm2, mid_pred());
    assert(lm1 == lm2);
    assert(n1 + v1 =~= t.subrange(q0, q0 + lm1)) by {
        assert forall|j: int| 0 <= j < lm1 implies (n1 + v1)[j] == t[q0 + j] by {
            if j < ln1 {
                assert(t.subrange(q0, q0 + ln1)[j] == t[q0 + j]);
            } else {
                assert(t.subrange(q0 + ln1, q0 + lm1)[j - ln1] == t[q0 + j]);
            }
        }
    }
    assert(n2 + v2 =~= t.subrange(q0, q0 + lm2)) by {
        assert forall|j: int| 0 <= j < lm2 implies (n2 + v2)[j] == t[q0 + j] by {
            if j < ln2 {
                assert(t.subrange(q0, q0 + ln2)[j] == t[q0 + j]);
            } else {
                assert(t.subrange(q0 + ln2, q0 + lm2)[j - ln2] == t[q0 + j]);
            }
        }
    }
    lemma_mid_unique(n1, a1.version, n2, a2.version);
}

/// The slot and USE-dependency list of canonical atom text are read back
/// uniquely once everything before them is fixed.
#[verifier::rlimit(100)]
#[verifier::spinoff_prover]
proof fn lemma_atom_tail_unique(a1: &Atom, a2: &Atom)
    requires
        a1.wf(),
        a2.wf(),
        a1.spec_str() == a2.spec_str(),
        a1.blocker == a2.blocker,
        a1.version_operator == a2.version_operator,
        a1.category@ == a2.category@,
        a1.name@.len() + opt_version_part(a1.version).len() == a2.name@.len()
            + opt_version_part(a2.version).len(),
    ensures
        match (a1.slot, a2.slot) {
            (Some(x), Some(y)) => x@ == y@,
            (None, None) => true,
            _ => false,
        },
        a1.usedeps@.map_values(|z: UseDep| z@) == a2.usedeps@.map_values(|z: UseDep| z@),
{
    let t = a1.spec_str();
    let b1 = opt_blocker_str(a1.blocker);
    let b2 = opt_blocker_str(a2.blocker);
    let o1 = opt_vop_str(a1.version_operator);
    let o2 = opt_vop_str(a2.version_operator);
    let c1 = a1.category@;
    let c2 = a2.category@;
    let n1 = a1.name@;
    let n2 = a2.name@;
    let v1 = opt_version_part(a1.version);
    let v2 = opt_version_part(a2.version);
    let s1 = opt_slot_part(a1.slot);
    let s2 = opt_slot_part(a2.slot);
    let d1 = deps_part(a1.usedeps@);
    let d2 = deps_part(a2.usedeps@);
    let lb1 = b1.len() as int;
    let lb2 = b2.len() as int;
    let lo1 = o1.len() as int;
    let lo2 = o2.len() as int;
    let lc1 = c1.len() as int;
    let lc2 = c2.len() as int;
    let ln1 = n1.len() as int;
    let ln2 = n2.len() as int;
    let lv1 = v1.len() as int;
    let lv2 = v2.len() as int;
    let ls1 = s1.len() as int;
    let ls2 = s2.len() as int;
    let ld1 = d1.len() as int;
    let ld2 = d2.len() as int;
    lemma_atom_regions(a1);
    lemma_atom_regions(a2);
    match a1.slot {
        Some(sl) => lemma_slot_shape(&sl),
        None => (),
    }
    match a2.slot {
        Some(sl) => lemma_slot_shape(&sl),
        None => (),
    }
    let lb = lb1;
    let p0 = lb + lo1;
    let q0 = p0 + lc1 + 1;
    let lm1 = ln1 + lv1;
    let lm2 = ln2 + lv2;
    let r0 = q0 + lm1;
    // Slot region.
    match (a1.slot, a2.slot) {
            (Some(x1), Some(x2)) => {
                assert(ls1 == 1 + x1.spec_str().len());
                assert(ls2 == 1 + x2.spec_str().len());
                assert forall|j: int| r0 + 1 <= j < r0 + ls1 implies slot_char_pred()(
                    #[trigger] t[j],
                ) by {
                    assert(t.subrange(r0, r0 + ls1)[j - r0] == t[j]);
                    assert(s1[j - r0] == (seq![':'] + x1.spec_str())[j - r0]);
                }
                assert forall|j: int| r0 + 1 <= j < r0 + ls2 implies slot_char_pred()(
                    #[trigger] t[j],
                ) by {
                    assert(t.subrange(r0, r0 + ls2)[j - r0] == t[j]);
                    assert(s2[j - r0] == (seq![':'] + x2.spec_str())[j - r0]);
                }
                assert(r0 + ls1 == t.len() || !slot_char_pred()(t[r0 + ls1])) by {
                    if ld1 > 0 {
                        assert(t.subrange(r0 + ls1, t.len() as int)[0] == t[r0 + ls1]);
                        assert(d1[0] == '[') by {
                            assert(d1[0] == (seq!['['] + joined(
                                a1.usedeps@.map_values(|z: UseDep| z.spec_str()),
                                seq![','],
                            ))[0]);
                        }
                    }
                }
                assert(r0 + ls2 == t.len() || !slot_char_pred()(t[r0 + ls2])) by {
                    if ld2 > 0 {
                        assert(t.subrange(r0 + ls2, t.len() as int)[0] == t[r0 + ls2]);
                        assert(d2[0] == '[') by {
                            assert(d2[0] == (seq!['['] + joined(
                                a2.usedeps@.map_values(|z: UseDep| z.spec_str()),
                                seq![','],
                            ))[0]);
                        }
                    }
                }
                lemma_run_end_is_util(t, r0 + 1, r0 + ls1, slot_char_pred());
                lemma_run_end_is_util(t, r0 + 1, r0 + ls2, slot_char_pred());
                assert(ls1 == ls2);
                assert(x1.spec_str() =~= x2.spec_str()) by {
                    assert forall|j: int| 0 <= j < x1.spec_str().len() implies x1.spec_str()[j]
                        == x2.spec_str()[j] by {
                        assert(t.subrange(r0, r0 + ls1)[j + 1] == t[r0 + 1 + j]);
                        assert(t.subrange(r0, r0 + ls2)[j + 1] == t[r0 + 1 + j]);
                        assert(s1[j + 1] == (seq![':'] + x1.spec_str())[j + 1]);
                        assert(s2[j + 1] == (seq![':'] + x2.spec_str())[j + 1]);
                    }
                }
                lemma_slot_str_unique(&x1, &x2);
            },
            (None, None) => (),
            (Some(x1), None) => {
                assert(ls1 == 1 + x1.spec_str().len());
                assert(t.subrange(r0, r0 + ls1)[0] == t[r0]);
                assert(s1[0] == ':');
                if ld2 > 0 {
                    assert(t.subrange(r0, t.len() as int)[0] == t[r0]);
                    assert(d2[0] == '[') by {
                        assert(d2[0] == (seq!['['] + joined(
                            a2.usedeps@.map_values(|z: UseDep| z.spec_str()),
                            seq![','],
                        ))[0]);
                    }
                }
                assert(false);
            },
            (None, Some(x2)) => {
                assert(ls2 == 1 + x2.spec_str().len());
                assert(t.subrange(r0, r0 + ls2)[0] == t[r0]);
                assert(s2[0] == ':');
                if ld1 > 0 {
                    assert(t.subrange(r0, t.len() as int)[0] == t[r0]);
                    assert(d1[0] == '[') by {
                        assert(d1[0] == (seq!['['] + joined(
                            a1.usedeps@.map_values(|z: UseDep| z.spec_str()),
                            seq![','],
                        ))[0]);
                    }
                }
                assert(false);
            },
    }
    assert(ls1 == ls2);
    assert(ld1 == ld2);
    // Dependency list region.
    let u0 = r0 + ls1;
    assert(d1 =~= d2) by {
        assert forall|j: int| 0 <= j < ld1 implies d1[j] == d2[j] by {
            assert(t.subrange(u0, t.len() as int)[j] == t[u0 + j]);
        }
    }
    match (a1.usedeps@.len() > 0, a2.usedeps@.len() > 0) {
        (true, true) => {
            let jm1 = joined(a1.usedeps@.map_values(|z: UseDep| z.spec_str()), seq![',']);
            let jm2 = joined(a2.usedeps@.map_values(|z: UseDep| z.spec_str()), seq![',']);
            assert(d1 == seq!['['] + jm1 + seq![']']);
            assert(d2 == seq!['['] + jm2 + seq![']']);
            assert(ld1 == 2 + jm1.len());
            assert(ld2 == 2 + jm2.len());
            assert(jm1 =~= jm2) by {
                assert forall|j: int| 0 <= j < jm1.len() implies jm1[j] == jm2[j] by {
                    assert(d1[j + 1] == (seq!['['] + jm1)[j + 1]);
                    assert(d2[j + 1] == (seq!['['] + jm2)[j + 1]);
                }
            }
            assert(jm1 + Seq::<char>::empty() =~= jm1);
            assert(jm2 + Seq::<char>::empty() =~= jm2);
            lemma_usedep_list_unique(
                a1.usedeps@,
                Seq::<char>::empty(),
                a2.usedeps@,
                Seq::<char>::empty(),
            );
        },
        (false, false) => {
            assert(a1.usedeps@.map_values(|z: UseDep| z@) =~= a2.usedeps@.map_values(
                |z: UseDep| z@,
            ));
        },
        (true, false) => {
            assert(ld1 >= 2);
            assert(false);
        },
        (false, true) => {
            assert(ld2 >= 2);
            assert(false);
        },
    }
}

/// Canonical atom text is unambiguous: two well-formed atoms that render to
/// the same text have the same content. Together with the parsers' guarantee
/// that the text they consume is the canonical text of the value they
/// return, re-parsing a rendered atom can only yield the atom itself.
pub proof fn lemma_atom_str_unique(a1: &Atom, a2: &Atom)
    requires
        a1.wf(),
        a2.wf(),
        a1.spec_str() == a2.spec_str(),
    ensures
        a1@ == a2@,
{
    lemma_atom_front_unique(a1, a2);
    lemma_atom_middle_unique(a1, a2);
    lemma_atom_tail_unique(a1, a2);
    assert(a1@.blocker == a2@.blocker);
    assert(a1@.version_operator == a2@.version_operator);
    assert(a1@.category == a2@.category);
    assert(a1@.name == a2@.name);
    assert(a1@.version == a2@.version);
    assert(a1@.slot == a2@.slot);
    assert(a1@.usedeps == a2@.usedeps);
    assert(a1@ == a2@);
}


/// Restatement of [`crate::parser_utils::lemma_run_end_is`] under a local
/// name.
proof fn lemma_run_end_is_util(s: Seq<char>, i: int, e: int, p: spec_fn(char) -> bool)
    requires
        0 <= i <= e <= s.len(),
        forall|j: int| i <= j < e ==> p(#[trigger] s[j]),
        e == s.len() || !p(s[e]),
    ensures
        crate::parser_utils::run_end(s, i, p) == e,
{
    crate::parser_utils::lemma_run_end_is(s, i, e, p);
}

} // verus!
