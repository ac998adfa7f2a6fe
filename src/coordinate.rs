use vstd::prelude::*;

verus! {

/// Generic 4D coordinate tuple, with no fixed interpretation of the
/// elements: their order is fixed when it is made.
#[derive(Clone, Copy, Debug)]
pub struct Coor4D<T: Copy>(pub [T; 4]);

impl<T: Copy> Coor4D<T> {
    /// A tuple with every element `fill`.
    pub fn new(fill: T) -> (r: Coor4D<T>)
        ensures
            r.0@ == seq![fill, fill, fill, fill],
    {
        let r = Coor4D([fill, fill, fill, fill]);
        proof {
            assert(r.0@ =~= seq![fill, fill, fill, fill]);
        }
        r
    }

    /// A tuple of the four elements, in the order given.
    pub fn raw(first: T, second: T, third: T, fourth: T) -> (r: Coor4D<T>)
        ensures
            r.0@ == seq![first, second, third, fourth],
    {
        let r = Coor4D([first, second, third, fourth]);
        proof {
            assert(r.0@ =~= seq![first, second, third, fourth]);
        }
        r
    }

    /// The number of elements.
    pub fn dim(&self) -> (r: usize)
        ensures
            r == 4,
    {
        4
    }

    /// The element at position `n`.
    pub fn nth_unchecked(&self, n: usize) -> (r: T)
        requires
            n < 4,
        ensures
            r == self.0@[n as int],
    {
        self.0[n]
    }

    /// Sets the element at position `n`; the others keep their values.
    pub fn set_nth_unchecked(&mut self, n: usize, value: T)
        requires
            n < 4,
        ensures
            final(self).0@ == old(self).0@.update(n as int, value),
    {
        self.0[n] = value;
    }
}

} // verus!
