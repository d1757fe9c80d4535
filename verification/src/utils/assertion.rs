use vstd::prelude::*;

verus! {

/// The outcome of a check: what was found to hold, or why it does not.
pub enum Assertion<T, E> {
    True(T),
    False(E),
}

impl<T, E> Assertion<T, E> {
    pub fn is_true(&self) -> (holds: bool)
        ensures
            holds == (self is True),
    {
        matches!(self, Assertion::True(_))
    }

    pub fn is_false(&self) -> (fails: bool)
        ensures
            fails == (self is False),
            fails == !(self is True),
    {
        !self.is_true()
    }
}

} // verus!
