//! Value series: an ordered collection of resistor magnitudes, built by
//! expanding a small set of per-decade base multipliers across the seven
//! decade scale factors 10^0 .. 10^6.
//!
//! Magnitudes are integers in tenths of an ohm: the base multiplier 2.2 is
//! written 22, and its expansion contains 22, 220, ..., 22_000_000.

use vstd::prelude::*;

verus! {

/// Number of decade scale factors a series is expanded over.
pub open spec fn decade_count() -> int {
    7
}

/// The `k`-th decade scale factor, 10^k for 0 <= k < 7.
pub open spec fn decade(k: int) -> int {
    if k == 0 {
        1
    } else if k == 1 {
        10
    } else if k == 2 {
        100
    } else if k == 3 {
        1000
    } else if k == 4 {
        10000
    } else if k == 5 {
        100000
    } else {
        1000000
    }
}

/// A multiplier small enough that its largest decade expansion fits in u32.
pub open spec fn fits_decades(m: u32) -> bool {
    m * 1000000 <= u32::MAX
}

/// `vals` is the full cross product of `base` with the decade scale factors,
/// in multiplier-major, decade-minor order: each multiplier is scaled across
/// all seven decades before the next multiplier begins.
pub open spec fn is_expansion(vals: Seq<u32>, base: Seq<u32>) -> bool {
    &&& vals.len() == base.len() * decade_count()
    &&& forall|i: int|
        0 <= i < vals.len() ==> vals[i] == base[i / decade_count()] * decade(i % decade_count())
}

/// Base multipliers of the E3 standard series, in tenths.
pub open spec fn e3_base() -> Seq<u32> {
    seq![10u32, 22u32, 47u32]
}

/// Multipliers the E6 standard series adds to E3, in tenths.
pub open spec fn e6_add() -> Seq<u32> {
    seq![15u32, 33u32, 68u32]
}

/// Multipliers the E12 standard series adds to E6, in tenths.
pub open spec fn e12_add() -> Seq<u32> {
    seq![12u32, 18u32, 27u32, 39u32, 56u32, 82u32]
}

/// Multipliers the E24 standard series adds to E12, in tenths.
pub open spec fn e24_add() -> Seq<u32> {
    seq![11u32, 13u32, 16u32, 20u32, 24u32, 30u32, 36u32, 43u32, 51u32, 62u32, 75u32, 91u32]
}

/// `vals` is exactly the E3 standard series.
pub open spec fn is_e3(vals: Seq<u32>) -> bool {
    is_expansion(vals, e3_base())
}

/// `vals` is exactly the E6 standard series: E3 as a prefix, then the
/// expansions of the multipliers E6 adds.
pub open spec fn is_e6(vals: Seq<u32>) -> bool {
    &&& vals.len() == 42
    &&& is_e3(vals.take(21))
    &&& is_expansion(vals.skip(21), e6_add())
}

/// `vals` is exactly the E12 standard series: E6 as a prefix, then the
/// expansions of the multipliers E12 adds.
pub open spec fn is_e12(vals: Seq<u32>) -> bool {
    &&& vals.len() == 84
    &&& is_e6(vals.take(42))
    &&& is_expansion(vals.skip(42), e12_add())
}

/// `vals` is exactly the E24 standard series: E12 as a prefix, then the
/// expansions of the multipliers E24 adds.
pub open spec fn is_e24(vals: Seq<u32>) -> bool {
    &&& vals.len() == 168
    &&& is_e12(vals.take(84))
    &&& is_expansion(vals.skip(84), e24_add())
}

/// A series of resistor values in tenths of an ohm; constants of the standard
/// resistor arrays are provided by `e3` .. `e24`.
#[derive(Debug)]
pub struct RSeries {
    values: Vec<u32>,
}

impl View for RSeries {
    type V = Seq<u32>;

    closed spec fn view(&self) -> Seq<u32> {
        self.values@
    }
}

/// The `k`-th decade scale factor as a machine integer.
fn decade_val(k: usize) -> (d: u32)
    requires
        k < 7,
    ensures
        d == decade(k as int),
        1 <= d <= 1000000,
{
    if k == 0 {
        1
    } else if k == 1 {
        10
    } else if k == 2 {
        100
    } else if k == 3 {
        1000
    } else if k == 4 {
        10000
    } else if k == 5 {
        100000
    } else {
        1000000
    }
}

impl RSeries {
    /// Appends the decade expansion of each multiplier of `base` to `values`.
    fn push_expansion(values: &mut Vec<u32>, base: &Vec<u32>)
        requires
            forall|i: int| 0 <= i < base@.len() ==> fits_decades(#[trigger] base@[i]),
        ensures
            final(values)@.len() == old(values)@.len() + base@.len() * decade_count(),
            forall|j: int|
                0 <= j < old(values)@.len() ==> final(values)@[j] == old(values)@[j],
            is_expansion(final(values)@.skip(old(values)@.len() as int), base@),
    {
        let offset = values.len();
        let mut i: usize = 0;
        while i < base.len()
            invariant
                i <= base@.len(),
                forall|q: int| 0 <= q < base@.len() ==> fits_decades(#[trigger] base@[q]),
                values@.len() == offset + i * decade_count(),
                forall|j: int| 0 <= j < offset ==> values@[j] == old(values)@[j],
                forall|j: int|
                    offset <= j < values@.len() ==> values@[j] == base@[(j - offset)
                        / decade_count()] * decade((j - offset) % decade_count()),
            decreases base@.len() - i,
        {
            let m = base[i];
            let mut k: usize = 0;
            while k < 7
                invariant
                    i < base@.len(),
                    k <= 7,
                    fits_decades(m),
                    m == base@[i as int],
                    forall|q: int| 0 <= q < base@.len() ==> fits_decades(#[trigger] base@[q]),
                    values@.len() == offset + i * decade_count() + k,
                    forall|j: int| 0 <= j < offset ==> values@[j] == old(values)@[j],
                    forall|j: int|
                        offset <= j < values@.len() ==> values@[j] == base@[(j - offset)
                            / decade_count()] * decade((j - offset) % decade_count()),
                decreases 7 - k,
            {
                let d = decade_val(k);
                proof {
                    assert(m * d <= m * 1000000) by (nonlinear_arith)
                        requires
                            1 <= d <= 1000000,
                    ;
                    assert((i * 7 + k) / 7 == i && (i * 7 + k) % 7 == k) by (nonlinear_arith)
                        requires
                            0 <= i,
                            0 <= k < 7,
                    ;
                }
                values.push(m * d);
                k = k + 1;
            }
            i = i + 1;
        }
    }

    /// Builds the series that expands `base` across all seven decades,
    /// multiplier-major.
    pub fn new(base: &Vec<u32>) -> (r: RSeries)
        requires
            forall|i: int| 0 <= i < base@.len() ==> fits_decades(#[trigger] base@[i]),
        ensures
            is_expansion(r@, base@),
    {
        let mut values: Vec<u32> = Vec::new();
        Self::push_expansion(&mut values, base);
        assert(values@.skip(0) =~= values@);
        RSeries { values }
    }

    /// Builds a new series from an existing one: the existing values keep
    /// their order as a prefix, and the expansions of the newly introduced
    /// multipliers are appended after them.
    pub fn extend(base: &RSeries, add: &Vec<u32>) -> (r: RSeries)
        requires
            forall|i: int| 0 <= i < add@.len() ==> fits_decades(#[trigger] add@[i]),
        ensures
            r@.len() == base@.len() + add@.len() * decade_count(),
            r@.take(base@.len() as int) =~= base@,
            is_expansion(r@.skip(base@.len() as int), add@),
    {
        let mut values: Vec<u32> = Vec::new();
        let mut j: usize = 0;
        while j < base.values.len()
            invariant
                j <= base@.len(),
                values@ =~= base@.take(j as int),
            decreases base@.len() - j,
        {
            values.push(base.values[j]);
            j = j + 1;
        }
        assert(values@ =~= base@);
        Self::push_expansion(&mut values, add);
        RSeries { values }
    }

    /// Wraps an explicit list of values, in tenths of an ohm, as a series,
    /// kept exactly in the given order.
    pub fn from_values(values: Vec<u32>) -> (r: RSeries)
        ensures
            r@ == values@,
    {
        RSeries { values }
    }

    /// Number of values in the series.
    pub fn len(&self) -> (n: usize)
        ensures
            n == self@.len(),
    {
        self.values.len()
    }

    /// The value at position `i`, in tenths of an ohm.
    pub fn value_at(&self, i: usize) -> (v: u32)
        requires
            i < self@.len(),
        ensures
            v == self@[i as int],
    {
        self.values[i]
    }

    /// The E3 standard series.
    pub fn e3() -> (r: RSeries)
        ensures
            is_e3(r@),
            r@.len() == 21,
    {
        let mut base: Vec<u32> = Vec::new();
        base.push(10);
        base.push(22);
        base.push(47);
        assert(base@ =~= e3_base());
        Self::new(&base)
    }

    /// The E6 standard series: E3 extended by its additional multipliers.
    pub fn e6() -> (r: RSeries)
        ensures
            is_e6(r@),
    {
        let e3 = Self::e3();
        let mut add: Vec<u32> = Vec::new();
        add.push(15);
        add.push(33);
        add.push(68);
        assert(add@ =~= e6_add());
        Self::extend(&e3, &add)
    }

    /// The E12 standard series: E6 extended by its additional multipliers.
    pub fn e12() -> (r: RSeries)
        ensures
            is_e12(r@),
    {
        let e6 = Self::e6();
        let mut add: Vec<u32> = Vec::new();
        add.push(12);
        add.push(18);
        add.push(27);
        add.push(39);
        add.push(56);
        add.push(82);
        assert(add@ =~= e12_add());
        Self::extend(&e6, &add)
    }

    /// The E24 standard series: E12 extended by its additional multipliers.
    pub fn e24() -> (r: RSeries)
        ensures
            is_e24(r@),
    {
        let e12 = Self::e12();
        let mut add: Vec<u32> = Vec::new();
        add.push(11);
        add.push(13);
        add.push(16);
        add.push(20);
        add.push(24);
        add.push(30);
        add.push(36);
        add.push(43);
        add.push(51);
        add.push(62);
        add.push(75);
        add.push(91);
        assert(add@ =~= e24_add());
        Self::extend(&e12, &add)
    }
}

} // verus!
