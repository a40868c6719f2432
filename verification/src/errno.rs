use vstd::prelude::*;

verus! {

/// `errno` value for an argument outside the accepted domain.
pub const EINVAL: i32 = 22;

/// `errno` value for a result that does not fit its type.
pub const ERANGE: i32 = 34;

} // verus!
