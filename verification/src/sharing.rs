//! Shared ownership of scene data.

use vstd::prelude::*;
use std::sync::Arc;

verus! {

/// Another handle on the value that `a` points to, from `Arc::clone` of the
/// standard library. The contract claims that the new handle points to the
/// same value as `a`.
#[verifier::external_body]
pub(crate) fn share<T>(a: &Arc<T>) -> (r: Arc<T>)
    ensures
        r == *a,
{
    Arc::clone(a)
}

} // verus!
