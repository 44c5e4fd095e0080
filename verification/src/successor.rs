use vstd::prelude::*;

verus! {

/// Types whose values can be walked in a fixed order, from `first` onward.
pub trait Succ: Sized {
    fn first() -> Self;

    fn succ(&self) -> Option<Self>;
}

/// Walks the values of `T` from `T::first()` until `succ` yields nothing.
#[derive(Debug, Clone)]
pub struct SuccIter<T: Succ + Clone>(pub Option<T>);

impl<T: Succ + Clone> SuccIter<T> {
    pub fn new() -> Self {
        SuccIter(Some(T::first()))
    }

    pub fn next(&mut self) -> Option<T> {
        let current = match &self.0 {
            Some(x) => Some(x.clone()),
            None => None,
        };
        self.0 = match &current {
            Some(x) => x.succ(),
            None => None,
        };
        current
    }
}

} // verus!
