//! The recursive dependency-expression language: atoms and USE requirements
//! combined by all-of, any-of, one-of, and conditional groups.

pub mod parsers;

use vstd::prelude::*;

use crate::atom::Atom;
use crate::useflag::UseFlag;

verus! {

/// The guard of a conditional group: `useflag?` or `!useflag?`.
#[derive(Clone, Debug)]
pub enum Conditional {
    Negative(UseFlag),
    Positive(UseFlag),
}

/// A bare USE requirement: `useflag` or `!useflag`, with no trailing `?`.
#[derive(Clone, Debug)]
pub enum UseRequirement {
    Negative(UseFlag),
    Positive(UseFlag),
}

/// A dependency expression: an atom leaf, a USE-requirement leaf, or a group
/// owning its child expressions.
#[derive(Debug)]
pub enum Expr {
    Atom(Atom),
    UseRequirement(UseRequirement),
    AllOf(Vec<Expr>),
    AnyOf(Vec<Expr>),
    OneOf(Vec<Expr>),
    Conditional(Conditional, Vec<Expr>),
}

impl Conditional {
    /// The guard's flag is well formed.
    pub open spec fn wf(&self) -> bool {
        match self {
            Conditional::Negative(f) => f.wf(),
            Conditional::Positive(f) => f.wf(),
        }
    }
}

impl UseRequirement {
    /// The requirement's flag is well formed.
    pub open spec fn wf(&self) -> bool {
        match self {
            UseRequirement::Negative(f) => f.wf(),
            UseRequirement::Positive(f) => f.wf(),
        }
    }
}

impl Expr {
    /// Every leaf of the expression tree is well formed, and every group
    /// holds at least one child.
    pub open spec fn wf(&self) -> bool
        decreases self,
    {
        match self {
            Expr::Atom(a) => a.wf(),
            Expr::UseRequirement(u) => u.wf(),
            Expr::AllOf(es) => es@.len() >= 1 && forall|i: int|
                0 <= i < es@.len() ==> (#[trigger] es@[i]).wf(),
            Expr::AnyOf(es) => es@.len() >= 1 && forall|i: int|
                0 <= i < es@.len() ==> (#[trigger] es@[i]).wf(),
            Expr::OneOf(es) => es@.len() >= 1 && forall|i: int|
                0 <= i < es@.len() ==> (#[trigger] es@[i]).wf(),
            Expr::Conditional(c, es) => c.wf() && es@.len() >= 1 && forall|i: int|
                0 <= i < es@.len() ==> (#[trigger] es@[i]).wf(),
        }
    }
}

} // verus!
