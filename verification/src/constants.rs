//! Default configuration values.

use vstd::prelude::*;

verus! {

/// Version of the library, also used in the default user agent.
pub const VERSION: &'static str = "0.7.1";

/// Default number of redirections followed before giving up.
pub const NUMBER_OF_REDIRECT: u8 = 16;

/// Default DNS lookup timeout, in seconds.
pub const DNS_LOOKUP_TIMEOUT: u64 = 5;

/// Default TCP connect timeout, in seconds.
pub const CONNECT_TIMEOUT: u64 = 15;

/// Default transport read timeout, in seconds.
pub const READ_TIMEOUT: u64 = 10;

/// Default overall request timeout, in seconds; 0 disables the cap.
pub const REQUEST_TIMEOUT: u64 = 0;

/// Size of the buffer used for one transport read.
pub const BUFFER_PAGE_SIZE: usize = 2048;

/// The default `User-Agent` value sent with every request.
pub fn user_agent() -> (r: String)
    ensures
        r@ == "cabot/0.7.1"@,
{
    "cabot/0.7.1".to_owned()
}

} // verus!
