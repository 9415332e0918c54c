//! The entry-list cache: how directory change times are written as keys,
//! and when a cache file may be used.
use vstd::prelude::*;

use crate::dates::{push_zero_padded, zero_padded};
use crate::text::{dec_nat, push_char, str_eq, u64_to_dec};

verus! {

/// The format version of the entry-list cache.
pub const LIST_CACHE_VERSION: u32 = 3;

/// The key of a directory's change time: seconds, `.`, and nanoseconds
/// padded to nine digits.
pub open spec fn mtime_key_spec(secs: u64, nanos: u32) -> Seq<char> {
    dec_nat(secs as nat) + seq!['.'] + zero_padded(nanos as int, 9)
}

/// The key of a directory's change time (see [`mtime_key_spec`]).
pub fn dir_mtime_key(secs: u64, nanos: u32) -> (r: String)
    ensures
        r@ == mtime_key_spec(secs, nanos),
{
    let mut out = u64_to_dec(secs);
    push_char(&mut out, '.');
    push_zero_padded(&mut out, nanos as i64, 9);
    out
}

/// A cache file may be used when it has the current format and was
/// written when the data and attribute directories had the change times
/// they have now.
pub fn list_cache_fresh(
    version: u32,
    data_mtime: &str,
    attr_mtime: &str,
    current_data: &str,
    current_attr: &str,
) -> (r: bool)
    ensures
        r == (version == LIST_CACHE_VERSION && data_mtime@ == current_data@ && attr_mtime@
            == current_attr@),
{
    version == LIST_CACHE_VERSION && str_eq(data_mtime, current_data) && str_eq(attr_mtime, current_attr)
}

} // verus!
