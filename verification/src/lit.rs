//! Bound literals on integer variables, and the entailment order between them.

use vstd::prelude::*;

verus! {

/// The relation of a bound literal: an upper bound (`<=`) or a lower bound (`>=`).
///
/// The two relations are tracked in independent orderings; a `<=` literal is
/// never comparable to a `>=` literal.
#[derive(Clone, Copy, PartialEq, Eq, Structural, Debug)]
pub enum Rel {
    /// `var <= threshold`
    Leq,
    /// `var >= threshold`
    Geq,
}

/// A bound literal: the predicate `var <= threshold` or `var >= threshold`.
///
/// Variables are opaque, densely assigned non-negative identifiers; thresholds
/// are signed and unconstrained. A literal is immutable once constructed.
#[derive(Clone, Copy, PartialEq, Eq, Structural, Debug)]
pub struct Lit {
    pub var: usize,
    pub rel: Rel,
    pub threshold: i64,
}

/// `a` entails `b` when `a` being true guarantees that `b` is true: the two
/// literals share a variable and a relation, and `a` is at least as tight.
/// A tighter upper bound implies every looser upper bound (`x <= 3` implies
/// `x <= 5`), and symmetrically for lower bounds.
pub open spec fn lit_entails(a: Lit, b: Lit) -> bool {
    &&& a.var == b.var
    &&& a.rel == b.rel
    &&& match a.rel {
        Rel::Leq => a.threshold <= b.threshold,
        Rel::Geq => a.threshold >= b.threshold,
    }
}

/// Entailment is reflexive: every literal entails itself, so a query whose
/// threshold exactly matches a registered threshold reaches that bucket.
pub proof fn lemma_entails_reflexive(l: Lit)
    ensures
        lit_entails(l, l),
{
}

impl Lit {
    /// The upper-bound literal `var <= threshold`.
    pub fn leq(var: usize, threshold: i64) -> (r: Lit)
        ensures
            r == (Lit { var, rel: Rel::Leq, threshold }),
    {
        Lit { var, rel: Rel::Leq, threshold }
    }

    /// The lower-bound literal `var >= threshold`.
    pub fn geq(var: usize, threshold: i64) -> (r: Lit)
        ensures
            r == (Lit { var, rel: Rel::Geq, threshold }),
    {
        Lit { var, rel: Rel::Geq, threshold }
    }

    /// Decides entailment between two literals.
    pub fn entails(self, other: Lit) -> (r: bool)
        ensures
            r == lit_entails(self, other),
    {
        self.var == other.var && self.rel == other.rel && match self.rel {
            Rel::Leq => self.threshold <= other.threshold,
            Rel::Geq => self.threshold >= other.threshold,
        }
    }
}

} // verus!
