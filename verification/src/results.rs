//! Result alias used by every fallible operation of the library.

use crate::errors::CabotError;
use vstd::prelude::*;

verus! {

/// Result used by methods that can fail.
pub type CabotResult<T> = Result<T, CabotError>;

} // verus!
