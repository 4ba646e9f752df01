use vstd::prelude::*;

verus! {

/// A value wrapped so that traits can be given to it.
pub struct Wrapper<T>(pub T);

impl<T> Wrapper<T> {
    pub fn new(t: T) -> (w: Wrapper<T>)
        ensures
            w.0 == t,
    {
        Wrapper(t)
    }
}

} // verus!
