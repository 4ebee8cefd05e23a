//! Effects that hang on an expression: whether the value of the expression
//! has changed, so that the effect has to run again.

use vstd::prelude::*;
use vstd::std_specs::cmp::PartialEqSpec;

verus! {

/// Whether `value` is another value than the one that is kept, if any is:
/// an effect runs on the first value of its expression, and after that
/// whenever the value is not equal to the one it ran on last.
pub fn differs<T: PartialEq>(kept: &Option<T>, value: &T) -> (fresh: bool)
    ensures
        T::obeys_eq_spec() ==> fresh == !(kept matches Some(k) && k.eq_spec(value)),
{
    match kept {
        Some(k) => !(k == value),
        None => true,
    }
}

} // verus!
