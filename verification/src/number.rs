//! Exact numbers: the scale of a metric and the values handed to sinks.

use vstd::prelude::*;

verus! {

/// The nearest `i128` to `x`.
pub open spec fn clamp(x: int) -> i128 {
    if x > i128::MAX {
        i128::MAX
    } else if x < i128::MIN {
        i128::MIN
    } else {
        x as i128
    }
}

/// The factor by which the values of a metric are multiplied when they are
/// summed, held as the exact ratio `numer / denom`.
#[derive(Clone, Copy, Debug, PartialEq, Eq, Structural, Hash)]
pub struct Scale {
    pub numer: u32,
    pub denom: u32,
}

/// A value written to a sink, held as the exact ratio `numer / denom` so that
/// an average loses nothing to integer division.
#[derive(Clone, Copy, Debug, PartialEq, Eq, Structural, Hash)]
pub struct Quantity {
    pub numer: i128,
    pub denom: u128,
}

impl Scale {
    /// A scale is well formed when its denominator is positive.
    pub open spec fn wf(self) -> bool {
        self.denom > 0
    }

    /// The scale that leaves values as they are.
    pub open spec fn one() -> Scale {
        Scale { numer: 1, denom: 1 }
    }

    /// What a total of unscaled values amounts to under this scale: the
    /// product with the numerator, clamped to what an `i128` holds, over the
    /// denominator.
    pub open spec fn scaled(self, total: int) -> Quantity {
        Quantity { numer: clamp(total * self.numer), denom: self.denom as u128 }
    }

    /// The scale `numer / denom`, or `None` for a zero denominator.
    pub fn new(numer: u32, denom: u32) -> (r: Option<Scale>)
        ensures
            denom == 0 <==> r is None,
            r matches Some(s) ==> s == (Scale { numer, denom }) && s.wf(),
    {
        if denom == 0 {
            None
        } else {
            Some(Scale { numer, denom })
        }
    }

    /// The scale 1/1.
    pub fn unit() -> (r: Scale)
        ensures
            r == Scale::one(),
            r.wf(),
    {
        Scale { numer: 1, denom: 1 }
    }

    /// Applies the scale to a total of unscaled values.
    pub fn apply(&self, total: i128) -> (r: Quantity)
        ensures
            r == self.scaled(total as int),
    {
        let factor: i128 = self.numer as i128;
        let numer: i128 = match total.checked_mul(factor) {
            Some(product) => product,
            None => {
                assert(total > 0 ==> total * factor >= 0) by (nonlinear_arith)
                    requires
                        factor >= 0,
                ;
                assert(total <= 0 ==> total * factor <= 0) by (nonlinear_arith)
                    requires
                        factor >= 0,
                ;
                if total > 0 {
                    i128::MAX
                } else {
                    i128::MIN
                }
            },
        };
        Quantity { numer, denom: self.denom as u128 }
    }
}

impl Quantity {
    /// A quantity is well formed when its denominator is positive.
    pub open spec fn wf(self) -> bool {
        self.denom > 0
    }

    /// The whole number `n` as a quantity.
    pub open spec fn of(n: int) -> Quantity {
        Quantity { numer: n as i128, denom: 1 }
    }

    /// This quantity divided by `count`.
    pub open spec fn over(self, count: int) -> Quantity {
        Quantity { numer: self.numer, denom: (self.denom * count) as u128 }
    }

    /// The whole number `n`.
    pub fn whole(n: i128) -> (r: Quantity)
        ensures
            r == Quantity::of(n as int),
            r.wf(),
    {
        Quantity { numer: n, denom: 1 }
    }

    /// This quantity divided by `count`, or `None` where `count` is zero or
    /// the new denominator does not fit.
    pub fn per(&self, count: u64) -> (r: Option<Quantity>)
        ensures
            r is Some <==> count > 0 && self.denom * count <= u128::MAX,
            r matches Some(q) ==> q == self.over(count as int) && (self.wf() ==> q.wf()),
    {
        if count == 0 {
            return None;
        }
        match self.denom.checked_mul(count as u128) {
            Some(denom) => {
                assert(self.denom > 0 ==> self.denom * count > 0) by (nonlinear_arith)
                    requires
                        count > 0,
                ;
                Some(Quantity { numer: self.numer, denom })
            },
            None => None,
        }
    }
}

} // verus!
