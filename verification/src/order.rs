//! Value ordering of exact times: `<`, `<=`, `>`, `>=` and a three-way
//! comparison, all by exact cross-multiplication.
use crate::time::Rational;
use core::cmp::Ordering;
use vstd::prelude::*;
use vstd::std_specs::cmp::PartialOrdSpecImpl;

verus! {

impl Rational {
    /// Three-way comparison of values.
    pub open spec fn compare_spec(self, o: Rational) -> Ordering {
        if self.is_lt(o) {
            Ordering::Less
        } else if o.is_lt(self) {
            Ordering::Greater
        } else {
            Ordering::Equal
        }
    }

    /// Three-way value comparison (a total order on well-formed values).
    pub fn cmp(&self, o: &Rational) -> (r: Ordering)
        ensures
            r == self.compare_spec(*o),
    {
        if self.less_than(o) {
            Ordering::Less
        } else if o.less_than(self) {
            Ordering::Greater
        } else {
            Ordering::Equal
        }
    }
}

impl PartialOrd for Rational {
    fn partial_cmp(&self, other: &Rational) -> (r: Option<Ordering>) {
        Some(self.cmp(other))
    }
}

impl PartialOrdSpecImpl for Rational {
    open spec fn obeys_partial_cmp_spec() -> bool {
        true
    }

    open spec fn partial_cmp_spec(&self, other: &Rational) -> Option<Ordering> {
        Some(self.compare_spec(*other))
    }
}

} // verus!
