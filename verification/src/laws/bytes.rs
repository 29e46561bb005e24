//! A searched byte is found where it first stands.
use vstd::prelude::*;

use crate::fastscan::{first_byte_in_raw, first_byte_in_slice, swar_first_byte};
use crate::memory::MemoryRegion;

verus! {

/// Every search of a slice finds a byte that stands in it, at its first place, wherever that is,
/// and none that does not.
pub proof fn a_byte_is_found_where_it_first_stands(
    haystack: &[u8],
    needle: u8,
    r: Option<usize>,
    swar: Option<usize>,
    at: int,
)
    requires
        call_ensures(first_byte_in_slice, (haystack, needle), r),
        call_ensures(swar_first_byte, (haystack, needle), swar),
        0 <= at < haystack@.len() <= usize::MAX,
        haystack@[at] == needle,
    ensures
        r matches Some(k) && k <= at && haystack@[k as int] == needle,
        swar == r,
{
}

/// A search of addresses finds a byte that is mapped at one of them, at its first place, and none
/// that is not.
pub proof fn a_byte_is_found_where_it_is_first_mapped(
    memory: &MemoryRegion<'_>,
    start: usize,
    len: usize,
    needle: u8,
    r: Option<usize>,
    at: int,
)
    requires
        call_ensures(first_byte_in_raw, (memory, start, len, needle), r),
        0 <= at < len,
        0 <= start + at - memory.base() < memory.bytes().len(),
        memory.bytes()[start + at - memory.base()] == needle,
    ensures
        r matches Some(k) && k <= at,
        r matches Some(k) ==> 0 <= start + k - memory.base() < memory.bytes().len()
            && memory.bytes()[start + k - memory.base()] == needle,
{
    let window = memory.window(start as int, len as int);
    assert(window[at] == memory.byte_at(start + at));
    if let Some(k) = r {
        assert(window[k as int] == memory.byte_at(start + k));
    }
}

/// What a search finds is there.
pub proof fn what_is_found_is_there(
    memory: &MemoryRegion<'_>,
    start: usize,
    len: usize,
    haystack: &[u8],
    needle: u8,
    raw: Option<usize>,
    slice: Option<usize>,
)
    requires
        call_ensures(first_byte_in_raw, (memory, start, len, needle), raw),
        call_ensures(first_byte_in_slice, (haystack, needle), slice),
    ensures
        raw matches Some(k) ==> k < len && 0 <= start + k - memory.base() < memory.bytes().len()
            && memory.bytes()[start + k - memory.base()] == needle,
        slice matches Some(k) ==> k < haystack@.len() && haystack@[k as int] == needle,
{
    if let Some(k) = raw {
        assert(memory.window(start as int, len as int)[k as int] == memory.byte_at(start + k));
    }
}

} // verus!
