//! Comparisons of field elements.

use crate::driver::Driver;
use crate::error::Error;
use crate::primitives::{zero_test_usage, Boolean, Element};
use vstd::prelude::*;

verus! {

/// Compares two elements and returns whether they are equal.
pub fn is_equal<D: Driver>(dr: &mut D, a: &Element<D>, b: &Element<D>) -> (r: Result<
    Boolean<D>,
    Error,
>)
    requires
        old(dr).wf(),
        a.wf(old(dr)),
        b.wf(old(dr)),
    ensures
        final(dr).wf(),
        final(dr).tracks() == old(dr).tracks(),
        final(dr).predicts() == old(dr).predicts(),
        forall|w: D::Wire| old(dr).valid(w) ==> final(dr).valid(w),
        match zero_test_usage(old(dr).usage()) {
            Ok(u) => r matches Ok(answer) && {
                &&& final(dr).usage() == u
                &&& answer.wf(final(dr))
                &&& answer.value == match (a.value, b.value) {
                    (Some(x), Some(y)) => Some(x@ == y@),
                    _ => None::<bool>,
                }
            },
            Err(e) => r matches Err(x) && x == e,
        },
{
    Boolean::is_equal(dr, a, b)
}

/// Compares an element with the constant one and returns whether they
/// are equal.
pub fn is_one<D: Driver>(dr: &mut D, a: &Element<D>) -> (r: Result<Boolean<D>, Error>)
    requires
        old(dr).wf(),
        a.wf(old(dr)),
    ensures
        final(dr).wf(),
        final(dr).tracks() == old(dr).tracks(),
        final(dr).predicts() == old(dr).predicts(),
        forall|w: D::Wire| old(dr).valid(w) ==> final(dr).valid(w),
        match zero_test_usage(old(dr).usage()) {
            Ok(u) => r matches Ok(answer) && {
                &&& final(dr).usage() == u
                &&& answer.wf(final(dr))
                &&& answer.value == match a.value {
                    Some(x) => Some(x@ == 1),
                    None => None::<bool>,
                }
            },
            Err(e) => r matches Err(x) && x == e,
        },
{
    Boolean::is_one(dr, a)
}

} // verus!
