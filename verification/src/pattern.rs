use vstd::prelude::*;

use crate::column::ColumnRef;
use crate::value::Value;

verus! {

/// Boolean-composed predicate tree: And/Or of per-column equality tests.
///
/// A pattern is bound at evaluation time, not construction time: each
/// `Single` carries a [`ColumnRef`] capability that the evaluating bucket
/// re-validates (token, range, type) before looking anything up.
#[derive(Debug)]
pub enum Pattern {
    Single(ColumnRef, Value),
    And(Box<Pattern>, Box<Pattern>),
    Or(Box<Pattern>, Box<Pattern>),
}

impl Pattern {
    /// A leaf: the rows whose cell in the referenced column equals `refv`.
    pub fn new(refc: ColumnRef, refv: Value) -> (p: Pattern)
        ensures
            p == Pattern::Single(refc, refv),
    {
        Pattern::Single(refc, refv)
    }

    /// The rows matched by both this pattern and `rhs`.
    pub fn and(self, rhs: Pattern) -> (p: Pattern)
        ensures
            (p matches Pattern::And(l, r) && *l == self && *r == rhs),
    {
        Pattern::And(Box::new(self), Box::new(rhs))
    }

    /// The rows matched by this pattern or `rhs`.
    pub fn or(self, rhs: Pattern) -> (p: Pattern)
        ensures
            (p matches Pattern::Or(l, r) && *l == self && *r == rhs),
    {
        Pattern::Or(Box::new(self), Box::new(rhs))
    }
}

} // verus!
