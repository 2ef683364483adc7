//! Status codes the host returns to components.

use vstd::prelude::*;

verus! {

pub const STATUS_OK: i32 = 0;
pub const STATUS_UNDECLARED: i32 = 2;
pub const STATUS_UNSATISFIED: i32 = 3;
pub const STATUS_INVALID: i32 = 4;
pub const STATUS_LIMIT: i32 = 5;
pub const STATUS_COLLISION: i32 = 6;
pub const STATUS_DENIED: i32 = 7;
pub const STATUS_STALE: i32 = 8;
pub const STATUS_BUSY: i32 = 9;
pub const STATUS_AMBIGUOUS: i32 = 10;
pub const STATUS_AUTHENTICATION: i32 = 11;
pub const STATUS_REQUEST_REJECTED: i32 = 12;
pub const STATUS_REMOTE_FAILED_OTHER: i32 = 13;
pub const STATUS_EMPTY_RESPONSE: i32 = 14;
pub const STATUS_RESPONSE_LIMIT: i32 = 15;
pub const STATUS_PROTOCOL: i32 = 16;
pub const STATUS_EXCHANGE_AMBIGUOUS: i32 = 17;
pub const STATUS_REMOTE_CANCELLED: i32 = 19;
pub const STATUS_INCOMPLETE_MAX_OUTPUT_TOKENS: i32 = 20;
pub const STATUS_INCOMPLETE_CONTENT_FILTER: i32 = 21;
pub const STATUS_INCOMPLETE_OTHER: i32 = 22;
pub const STATUS_REMOTE_FAILED_SERVER_ERROR: i32 = 23;
pub const STATUS_REMOTE_FAILED_RATE_LIMIT: i32 = 24;
pub const STATUS_REMOTE_FAILED_INVALID_PROMPT: i32 = 25;
pub const STATUS_REMOTE_FAILED_VECTOR_STORE_TIMEOUT: i32 = 26;

} // verus!
