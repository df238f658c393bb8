//! A candidate: a binding of one value to each resistor slot of a
//! calculation. Slot `i` (1-based, named "Ri" in constraint expressions)
//! carries the value `r(i)`, in tenths of an ohm.

use vstd::prelude::*;

verus! {

/// Mathematical sum of a sequence of values.
pub open spec fn sum_of(s: Seq<u32>) -> int
    decreases s.len(),
{
    if s.len() == 0 {
        0
    } else {
        sum_of(s.drop_last()) + s.last()
    }
}

/// The sum of a sequence is bounded by its length times the largest value.
pub proof fn lemma_sum_of_bounds(s: Seq<u32>)
    ensures
        0 <= sum_of(s) <= s.len() * u32::MAX,
    decreases s.len(),
{
    if s.len() == 0 {
    } else {
        lemma_sum_of_bounds(s.drop_last());
        assert((s.len() - 1) * u32::MAX + u32::MAX == s.len() * u32::MAX) by (nonlinear_arith);
    }
}

/// A binding of values to the set of resistors in a calculation.
#[derive(Debug)]
pub struct RSet {
    vals: Vec<u32>,
}

impl View for RSet {
    type V = Seq<u32>;

    closed spec fn view(&self) -> Seq<u32> {
        self.vals@
    }
}

impl RSet {
    /// Wraps a value-per-slot assignment.
    pub fn from_values(vals: Vec<u32>) -> (r: RSet)
        ensures
            r@ == vals@,
    {
        RSet { vals }
    }

    /// Number of slots bound.
    pub fn len(&self) -> (n: usize)
        ensures
            n == self@.len(),
    {
        self.vals.len()
    }

    /// Retrieves the value of R{idx}, starting from R1, R2, ..., Rn,
    /// in tenths of an ohm.
    pub fn r(&self, idx: usize) -> (v: u32)
        requires
            1 <= idx <= self@.len(),
        ensures
            v == self@[idx - 1],
    {
        self.vals[idx - 1]
    }

    /// Returns the sum of all the values in the set, in tenths of an ohm.
    /// Good for presenting overall bounds on dividers.
    pub fn sum(&self) -> (s: u128)
        ensures
            s == sum_of(self@),
    {
        let mut acc: u128 = 0;
        let mut i: usize = 0;
        while i < self.vals.len()
            invariant
                i <= self@.len(),
                acc == sum_of(self@.take(i as int)),
                acc <= i * u32::MAX,
            decreases self@.len() - i,
        {
            proof {
                lemma_sum_of_bounds(self@.take(i as int));
                assert(i * u32::MAX + u32::MAX <= (usize::MAX as int) * u32::MAX
                    + u32::MAX < u128::MAX) by (nonlinear_arith)
                    requires
                        0 <= i <= usize::MAX as int,
                ;
                assert(self@.take(i + 1).drop_last() =~= self@.take(i as int));
                assert((i + 1) * u32::MAX == i * u32::MAX + u32::MAX) by (nonlinear_arith);
            }
            acc = acc + self.vals[i] as u128;
            i = i + 1;
        }
        proof {
            assert(self@.take(self@.len() as int) =~= self@);
        }
        acc
    }
}

} // verus!
