//! Handles on shared, immutable data.

use std::sync::Arc;
use vstd::prelude::*;

verus! {

/// Another handle on the data behind `handle`.
///
/// This calls `std::sync::Arc::clone`. The standard library documents that
/// the new handle points to the same allocation as the old one; the
/// contract says that much, that both hold the same data, and it is
/// believed, not proved.
#[verifier::external_body]
pub(crate) fn share<T>(handle: &Arc<T>) -> (shared: Arc<T>)
    ensures
        shared == *handle,
{
    Arc::clone(handle)
}

} // verus!
