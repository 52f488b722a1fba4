//! A fixed-capacity ordered container for at most two fixed-point scalars:
//! an inline pair plus a count, with no heap allocation. The inflection list
//! never holds more than two parameters.

use vstd::prelude::*;

verus! {

/// Holds zero, one or two scalars, in insertion order.
#[derive(Clone, Copy, Debug)]
pub struct UpToTwo {
    count: usize,
    first: i64,
    second: i64,
}

impl UpToTwo {
    /// The count never exceeds the inline capacity of two.
    #[verifier::type_invariant]
    spec fn inv(self) -> bool {
        self.count <= 2
    }
}

impl View for UpToTwo {
    type V = Seq<i64>;

    closed spec fn view(&self) -> Seq<i64> {
        if self.count == 0 {
            Seq::empty()
        } else if self.count == 1 {
            seq![self.first]
        } else {
            seq![self.first, self.second]
        }
    }
}

impl UpToTwo {
    /// An empty container.
    pub fn new() -> (r: UpToTwo)
        ensures
            r@ == Seq::<i64>::empty(),
    {
        UpToTwo { count: 0, first: 0, second: 0 }
    }

    /// Appends a scalar at the back.
    pub fn push(&mut self, v: i64)
        requires
            old(self)@.len() < 2,
        ensures
            final(self)@ == old(self)@.push(v),
    {
        proof {
            use_type_invariant(&*self);
        }
        if self.count == 0 {
            self.first = v;
            self.count = 1;
            assert(self@ =~= old(self)@.push(v));
        } else {
            self.second = v;
            self.count = 2;
            assert(self@ =~= old(self)@.push(v));
        }
    }

    /// How many scalars are held.
    pub fn len(&self) -> (r: usize)
        ensures
            r == self@.len(),
    {
        proof {
            use_type_invariant(&*self);
        }
        self.count
    }

    /// The scalar at `i`, or nothing past the end.
    pub fn get(&self, i: usize) -> (r: Option<i64>)
        ensures
            i < self@.len() ==> r == Some(self@[i as int]),
            i >= self@.len() ==> r is None,
    {
        proof {
            use_type_invariant(&*self);
        }
        if i == 0 && self.count >= 1 {
            Some(self.first)
        } else if i == 1 && self.count >= 2 {
            Some(self.second)
        } else {
            None
        }
    }
}

} // verus!
