//! First-byte search: the primitive behind the anchor pre-filter of the scanners.
//!
//! - [`first_byte_in_slice`] searches a slice and hands the work to `memchr`.
//! - [`first_byte_in_raw`] searches an address range of a [`MemoryRegion`] and always uses the
//!   portable word-at-a-time search [`swar_first_byte`].
use vstd::prelude::*;
use vstd::slice::slice_subrange;

use crate::memory::MemoryRegion;

verus! {

/// `r` is the index of the first byte of `bytes` equal to `needle`, or `None` if there is none.
pub open spec fn is_first_byte(bytes: Seq<u8>, needle: u8, r: Option<usize>) -> bool {
    match r {
        Some(k) => {
            &&& k < bytes.len()
            &&& bytes[k as int] == needle
            &&& forall|j: int| 0 <= j < k ==> bytes[j] != needle
        },
        None => forall|j: int| 0 <= j < bytes.len() ==> bytes[j] != needle,
    }
}

/// `r` is the index of the first readable byte of `window` equal to `needle`, or `None` if there
/// is none.
pub open spec fn is_first_readable(window: Seq<Option<u8>>, needle: u8, r: Option<usize>) -> bool {
    match r {
        Some(k) => {
            &&& k < window.len()
            &&& window[k as int] == Some(needle)
            &&& forall|j: int| 0 <= j < k ==> window[j] != Some(needle)
        },
        None => forall|j: int| 0 <= j < window.len() ==> window[j] != Some(needle),
    }
}

/// `memchr::memchr` returns the index of the first occurrence of `needle` in `haystack`, or
/// `None` if `needle` does not occur in it.
pub assume_specification[ memchr::memchr ](needle: u8, haystack: &[u8]) -> (r: Option<usize>)
    ensures
        is_first_byte(haystack@, needle, r),
;

/// Index of the first byte of `haystack` equal to `needle`.
pub fn first_byte_in_slice(haystack: &[u8], needle: u8) -> (r: Option<usize>)
    ensures
        is_first_byte(haystack@, needle, r),
{
    memchr::memchr(needle, haystack)
}

/// Offset of the first readable byte equal to `needle` in the `len` addresses from `start` on.
pub fn first_byte_in_raw(
    memory: &MemoryRegion<'_>,
    start: usize,
    len: usize,
    needle: u8,
) -> (r: Option<usize>)
    ensures
        is_first_readable(memory.window(start as int, len as int), needle, r),
{
    let bytes: &[u8] = memory.as_bytes();
    let base: usize = memory.base_address();
    let ghost window = memory.window(start as int, len as int);
    if start >= base {
        let skip: usize = start - base;
        if skip >= bytes.len() {
            return None;
        }
        let available: usize = bytes.len() - skip;
        let n: usize = if len < available { len } else { available };
        let mapped: &[u8] = slice_subrange(bytes, skip, skip + n);
        let r: Option<usize> = swar_first_byte(mapped, needle);
        assert forall|j: int| 0 <= j < n implies #[trigger] window[j] == Some(mapped@[j]) by {}
        r
    } else {
        let gap: usize = base - start;
        if gap >= len {
            return None;
        }
        let n: usize = if len - gap < bytes.len() { len - gap } else { bytes.len() };
        let mapped: &[u8] = slice_subrange(bytes, 0, n);
        let r: Option<usize> = swar_first_byte(mapped, needle);
        assert forall|j: int| gap <= j < gap + n implies #[trigger] window[j] == Some(
            mapped@[j - gap],
        ) by {}
        match r {
            Some(k) => Some(gap + k),
            None => None,
        }
    }
}

/// Bytes searched per step of [`swar_first_byte`].
pub const WORD_BYTES: usize = 8;

/// The byte `0x01` in every lane of a word.
pub const LOW_BITS: u64 = 0x0101_0101_0101_0101;

/// The byte `0x80` in every lane of a word.
pub const HIGH_BITS: u64 = 0x8080_8080_8080_8080;

/// Little-endian word made of the eight bytes of `haystack` from `at` on.
fn word_at(haystack: &[u8], at: usize) -> (word: u64)
    requires
        at + 8 <= haystack@.len(),
    ensures
        forall|j: u64|
            0 <= j < 8 ==> #[trigger] lane(word, j) == haystack@[at + j],
{
    let b0: u64 = haystack[at] as u64;
    let b1: u64 = haystack[at + 1] as u64;
    let b2: u64 = haystack[at + 2] as u64;
    let b3: u64 = haystack[at + 3] as u64;
    let b4: u64 = haystack[at + 4] as u64;
    let b5: u64 = haystack[at + 5] as u64;
    let b6: u64 = haystack[at + 6] as u64;
    let b7: u64 = haystack[at + 7] as u64;
    let word: u64 = b0 | (b1 << 8) | (b2 << 16) | (b3 << 24) | (b4 << 32) | (b5 << 40) | (b6 << 48)
        | (b7 << 56);
    assert(b0 < 256 && b1 < 256 && b2 < 256 && b3 < 256 && b4 < 256 && b5 < 256 && b6 < 256 && b7
        < 256 ==> {
        &&& (word >> 0u64) & 0xff == b0
        &&& (word >> 8u64) & 0xff == b1
        &&& (word >> 16u64) & 0xff == b2
        &&& (word >> 24u64) & 0xff == b3
        &&& (word >> 32u64) & 0xff == b4
        &&& (word >> 40u64) & 0xff == b5
        &&& (word >> 48u64) & 0xff == b6
        &&& (word >> 56u64) & 0xff == b7
    }) by (bit_vector)
        requires
            word == b0 | (b1 << 8) | (b2 << 16) | (b3 << 24) | (b4 << 32) | (b5 << 40) | (b6 << 48)
                | (b7 << 56),
    ;
    assert forall|j: u64| 0 <= j < 8 implies #[trigger] lane(word, j) == haystack@[at + j] by {
        assert(j == 0 || j == 1 || j == 2 || j == 3 || j == 4 || j == 5 || j == 6 || j == 7);
    }
    word
}

/// The byte in lane `j` of a word, lane 0 being the least significant.
pub open spec fn lane(word: u64, j: u64) -> u64 {
    (word >> ((8 * j) as u64)) & 0xff
}

/// The zero-byte test never misses: a word with a lane equal to `needle` sets a marker bit.
proof fn lemma_marker_bit_set(word: u64, needle: u64, splat: u64, xor: u64, diff: u64, j: u64)
    requires
        needle < 256,
        j < 8,
        splat == needle * LOW_BITS,
        xor == word ^ splat,
        xor >= LOW_BITS ==> diff == xor - LOW_BITS,
        xor < LOW_BITS ==> diff == xor - LOW_BITS + 0x1_0000_0000_0000_0000,
        lane(word, j) == needle,
    ensures
        diff & !xor & HIGH_BITS != 0,
{
    let s: u64 = (8 * j) as u64;
    assert(s == 0 || s == 8 || s == 16 || s == 24 || s == 32 || s == 40 || s == 48 || s == 56);
    assert(diff & !xor & 0x8080_8080_8080_8080 != 0) by (bit_vector)
        requires
            needle < 256,
            s == 0 || s == 8 || s == 16 || s == 24 || s == 32 || s == 40 || s == 48 || s == 56,
            splat == needle * 0x0101_0101_0101_0101,
            xor == word ^ splat,
            xor >= 0x0101_0101_0101_0101 ==> diff == xor - 0x0101_0101_0101_0101,
            xor < 0x0101_0101_0101_0101 ==> diff == xor - 0x0101_0101_0101_0101
                + 0x1_0000_0000_0000_0000,
            (word >> s) & 0xff == needle,
    ;
}

/// Portable word-at-a-time first-byte search.
///
/// Each full word is tested for a lane equal to `needle` with the "has zero byte" bit trick on
/// `word ^ splat(needle)`; only words that pass are looked at byte by byte. The bytes that do not
/// fill a word are compared one at a time.
pub fn swar_first_byte(haystack: &[u8], needle: u8) -> (r: Option<usize>)
    ensures
        is_first_byte(haystack@, needle, r),
{
    let wide: u64 = needle as u64;
    let splat: u64 = wide * LOW_BITS;
    let mut at: usize = 0;
    while haystack.len() - at >= WORD_BYTES
        invariant
            at <= haystack@.len(),
            wide == needle,
            splat == wide * LOW_BITS,
            forall|k: int| 0 <= k < at ==> haystack@[k] != needle,
        decreases haystack@.len() - at,
    {
        let word: u64 = word_at(haystack, at);
        let xor: u64 = word ^ splat;
        let diff: u64 = xor.wrapping_sub(LOW_BITS);
        if diff & !xor & HIGH_BITS != 0 {
            let mut j: usize = 0;
            while j < WORD_BYTES
                invariant
                    j <= WORD_BYTES,
                    at + WORD_BYTES <= haystack.len(),
                    forall|k: int| 0 <= k < at + j ==> haystack@[k] != needle,
                decreases WORD_BYTES - j,
            {
                if haystack[at + j] == needle {
                    return Some(at + j);
                }
                j = j + 1;
            }
        } else {
            assert forall|k: int| at <= k < at + 8 implies haystack@[k] != needle by {
                let lane_index: u64 = (k - at) as u64;
                assert(lane(word, lane_index) == haystack@[at + lane_index]);
                if haystack@[k] == needle {
                    lemma_marker_bit_set(word, wide, splat, xor, diff, lane_index);
                }
            }
        }
        at = at + WORD_BYTES;
    }
    while at < haystack.len()
        invariant
            at <= haystack@.len(),
            forall|k: int| 0 <= k < at ==> haystack@[k] != needle,
        decreases haystack@.len() - at,
    {
        if haystack[at] == needle {
            return Some(at);
        }
        at = at + 1;
    }
    None
}

/// The first occurrence of a byte is unique, so every way to search for it gives the same answer.
pub proof fn first_byte_is_unique(bytes: Seq<u8>, needle: u8, a: Option<usize>, b: Option<usize>)
    requires
        is_first_byte(bytes, needle, a),
        is_first_byte(bytes, needle, b),
    ensures
        a == b,
{
}

} // verus!
