//! Literals.

use vstd::prelude::*;

verus! {

/// A literal: a variable index together with the truth value that satisfies it.
///
/// `Lit { var: 3, val: false }` is the negation of variable 3.
#[derive(Clone, Copy, PartialEq, Eq, Structural, Debug)]
pub struct Lit {
    pub var: usize,
    pub val: bool,
}

impl Lit {
    /// The complementary literal, as a specification.
    pub open spec fn neg(self) -> Lit {
        Lit { var: self.var, val: !self.val }
    }

    /// The index (0 or 1) of the watch list, on the literal's variable, that
    /// holds the clauses watching this literal: the list visited when the
    /// variable takes the value that falsifies the literal.
    pub open spec fn slot(self) -> int {
        if self.val { 0 } else { 1 }
    }

    /// The complementary literal.
    pub fn not(self) -> (r: Lit)
        ensures
            r == self.neg(),
    {
        Lit { var: self.var, val: !self.val }
    }
}

/// The index of the watch list, on a variable, that is visited when the
/// variable takes the value `val`: 1 for `true`, 0 for `false`.
pub fn slot_of(val: bool) -> (r: usize)
    ensures
        r == (if val { 1usize } else { 0usize }),
{
    if val { 1 } else { 0 }
}

} // verus!
