//! Taking copies of the handles that a task is to own.

use vstd::prelude::*;

verus! {

/// A tuple of references whose referents can be cloned into a tuple of
/// values.
pub trait Capture {
    type Output;

    /// Clones every referent.
    fn capture(self) -> Self::Output;
}

impl<'a, T: Clone> Capture for (&'a T, ) {
    type Output = (T, );

    fn capture(self) -> (out: (T, ))
        ensures
            cloned(*self.0, out.0),
    {
        (self.0.clone(), )
    }
}

impl<'a, 'b, T1: Clone, T2: Clone> Capture for (&'a T1, &'b T2) {
    type Output = (T1, T2);

    fn capture(self) -> (out: (T1, T2))
        ensures
            cloned(*self.0, out.0),
            cloned(*self.1, out.1),
    {
        (self.0.clone(), self.1.clone())
    }
}

impl<'a, 'b, 'c, T1: Clone, T2: Clone, T3: Clone> Capture for (&'a T1, &'b T2, &'c T3) {
    type Output = (T1, T2, T3);

    fn capture(self) -> (out: (T1, T2, T3))
        ensures
            cloned(*self.0, out.0),
            cloned(*self.1, out.1),
            cloned(*self.2, out.2),
    {
        (self.0.clone(), self.1.clone(), self.2.clone())
    }
}

} // verus!
