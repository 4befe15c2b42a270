use vstd::prelude::*;

verus! {

/// Largest buffer length, which is also the largest token offset.
pub const BUFFER_MAX_OFFSET: usize = 536870911;

/// Largest skip distance that a container token can hold.
pub const MAX_NEXT_ITEM: usize = 536870911;

/// Largest length, in bytes, of the decimal length prefix of a string.
pub const MAX_HEADER_SIZE: usize = 7;

/// Default maximum nesting of open containers.
pub const DEFAULT_DEPTH_LIMIT: usize = 100;

/// Default maximum number of tokens.
pub const DEFAULT_TOKEN_LIMIT: i32 = 1000000;

} // verus!
