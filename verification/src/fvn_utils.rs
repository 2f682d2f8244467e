use vstd::prelude::*;
use vstd::std_specs::cmp::PartialOrdSpec;
use core::cmp::Ordering;

verus! {

/// The running maximum and minimum of the values seen so far.
#[derive(Debug)]
pub struct MaxMin<T> {
    max: Option<T>,
    min: Option<T>,
}

impl<T> MaxMin<T> {
    #[verifier::type_invariant]
    spec fn both_set(self) -> bool {
        self.max is Some && self.min is Some
    }

    /// The largest value seen so far.
    pub closed spec fn max_value(self) -> T {
        self.max->0
    }

    /// The smallest value seen so far.
    pub closed spec fn min_value(self) -> T {
        self.min->0
    }
}

/// `a < b` in the order that `T` promises to implement.
pub open spec fn below<T: PartialOrd>(a: T, b: T) -> bool {
    a.partial_cmp_spec(&b) == Some(Ordering::Less)
}

/// `a > b` in the order that `T` promises to implement.
pub open spec fn above<T: PartialOrd>(a: T, b: T) -> bool {
    a.partial_cmp_spec(&b) == Some(Ordering::Greater)
}

impl<T: PartialOrd + Clone + Copy> MaxMin<T> {
    /// Starts with `n` as both the maximum and the minimum.
    pub fn new_with_init(n: T) -> (r: Self)
        ensures
            r.max_value() == n,
            r.min_value() == n,
    {
        MaxMin { max: Some(n), min: Some(n) }
    }

    /// Takes `n` into account.
    pub fn update(&mut self, n: T) -> (r: &Self)
        ensures
            T::obeys_partial_cmp_spec() ==> final(self).max_value() == next_max(old(self).max_value(), n),
            T::obeys_partial_cmp_spec() ==> final(self).min_value() == next_min(old(self).min_value(), n),
            *r == *final(self),
    {
        proof {
            use_type_invariant(&*self);
        }
        if let Some(max) = self.max {
            if max < n {
                self.max = Some(n);
            }
        } else {
            self.max = Some(n);
        }
        if let Some(min) = self.min {
            if min > n {
                self.min = Some(n);
            }
        } else {
            self.min = Some(n);
        }
        self
    }

    /// The largest value seen so far.
    pub fn max(&self) -> (r: T)
        ensures
            r == self.max_value(),
    {
        proof {
            use_type_invariant(self);
        }
        self.max.unwrap()
    }

    /// The smallest value seen so far.
    pub fn min(&self) -> (r: T)
        ensures
            r == self.min_value(),
    {
        proof {
            use_type_invariant(self);
        }
        self.min.unwrap()
    }
}

/// The maximum after taking in `n` (see `update`).
pub open spec fn next_max<T: PartialOrd>(max: T, n: T) -> T {
    if below(max, n) { n } else { max }
}

/// The minimum after taking in `n` (see `update`).
pub open spec fn next_min<T: PartialOrd>(min: T, n: T) -> T {
    if above(min, n) { n } else { min }
}

/// Over `usize`, taking in a value keeps it between the minimum and the
/// maximum, and never lowers the maximum or raises the minimum.
pub proof fn law_update_bounds(max: usize, min: usize, n: usize)
    ensures
        next_min(min, n) <= n <= next_max(max, n),
        max <= next_max(max, n),
        next_min(min, n) <= min,
{
}

/// Over `usize`, the minimum stays at or below the maximum: it holds of a
/// fresh pair, and taking in any value keeps it.
pub proof fn law_min_below_max(max: usize, min: usize, n: usize)
    requires
        min <= max,
    ensures
        next_min(min, n) <= next_max(max, n),
        next_min(n, n) <= next_max(n, n),
{
}

} // verus!
