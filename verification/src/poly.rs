//! Capacity bounds and the structured polynomial that evaluation fills.

use crate::field::Fe;
use vstd::prelude::*;

verus! {

/// The capacity of a circuit shape.
#[derive(Clone, Copy, Debug, PartialEq, Eq, Structural)]
pub struct Rank {
    /// The largest number of multiplication gates.
    pub n: usize,
    /// The largest number of linear constraints.
    pub num_coeffs: usize,
}

impl Rank {
    /// A rank with the given bounds.
    pub fn new(n: usize, num_coeffs: usize) -> (r: Rank)
        ensures
            r.n == n,
            r.num_coeffs == num_coeffs,
    {
        Rank { n, num_coeffs }
    }
}

/// The views of a sequence of field elements.
pub open spec fn values(s: Seq<Fe>) -> Seq<nat> {
    Seq::new(s.len(), |i: int| s[i]@)
}

/// Every element of the sequence is canonical.
pub open spec fn all_canonical(s: Seq<Fe>) -> bool {
    forall|i: int| 0 <= i < s.len() ==> (#[trigger] s[i]).wf()
}

/// A structured polynomial, as its backward view presents it: one
/// coefficient per gate for each of the three legs of the gates.
#[derive(Debug)]
pub struct Polynomial {
    /// The coefficients of the left legs.
    pub a: Vec<Fe>,
    /// The coefficients of the right legs.
    pub b: Vec<Fe>,
    /// The coefficients of the output legs.
    pub c: Vec<Fe>,
}

impl Polynomial {
    /// Every coefficient is canonical.
    pub open spec fn wf(&self) -> bool {
        &&& all_canonical(self.a@)
        &&& all_canonical(self.b@)
        &&& all_canonical(self.c@)
    }

    /// The polynomial without any coefficient.
    pub fn new() -> (r: Polynomial)
        ensures
            r.wf(),
            r.a@.len() == 0,
            r.b@.len() == 0,
            r.c@.len() == 0,
    {
        Polynomial { a: Vec::new(), b: Vec::new(), c: Vec::new() }
    }
}

} // verus!
