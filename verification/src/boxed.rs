use vstd::prelude::*;

verus! {

/// Calls `Vec::into_boxed_slice`, and claims that the slice holds what the vector held, in the
/// same order.
#[verifier::external_body]
pub(crate) fn into_boxed_slice<T>(items: Vec<T>) -> (boxed: Box<[T]>)
    ensures
        boxed@ == items@,
{
    items.into_boxed_slice()
}

} // verus!
