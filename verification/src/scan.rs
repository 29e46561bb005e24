//! The scanners.
use vstd::prelude::*;
use vstd::slice::slice_subrange;

use crate::fastscan;
use crate::fastscan::{first_byte_in_raw, first_byte_in_slice};
use crate::hits;
use crate::matching;
use crate::memory::MemoryRegion;
use crate::pattern::WildcardPattern;
use crate::pe::{exec_sections, find_section, text_section_bounds, SectionInfo};

verus! {

/// `Some((off, byte))` for the first slot of the pattern that is no wildcard, `None` if all are.
pub fn anchor(pattern: WildcardPattern<'_>) -> (r: Option<(usize, u8)>)
    ensures
        match r {
            Some((off, byte)) => {
                &&& off < pattern@.len()
                &&& pattern@[off as int] == Some(byte)
                &&& forall|i: int| 0 <= i < off ==> pattern@[i] is None
            },
            None => matching::all_wildcards(pattern@),
        },
{
    let mut i: usize = 0;
    while i < pattern.len()
        invariant
            i <= pattern@.len(),
            forall|k: int| 0 <= k < i ==> pattern@[k] is None,
        decreases pattern@.len() - i,
    {
        if let Some(byte) = pattern[i] {
            return Some((i, byte));
        }
        i = i + 1;
    }
    None
}

/// Every slot of `pattern` accepts the byte under it when the pattern is laid at `addr`. A
/// wildcard accepts anything, a literal only a mapped byte equal to it.
pub fn matches_at(memory: &MemoryRegion<'_>, addr: usize, pattern: WildcardPattern<'_>) -> (r: bool)
    ensures
        r == matching::matches_at(memory.window(addr as int, pattern@.len() as int), pattern@, 0),
{
    let ghost window = memory.window(addr as int, pattern@.len() as int);
    let mut i: usize = 0;
    while i < pattern.len()
        invariant
            i <= pattern@.len(),
            window == memory.window(addr as int, pattern@.len() as int),
            forall|k: int|
                0 <= k < i ==> matching::slot_accepts(#[trigger] pattern@[k], window[0 + k]),
        decreases pattern@.len() - i,
    {
        if let Some(want) = pattern[i] {
            let got: Option<u8> = match addr.checked_add(i) {
                Some(at) => memory.read_byte(at),
                None => {
                    proof {
                        use_type_invariant(memory);
                    }
                    None
                },
            };
            assert(got == window[i as int]);
            if got != Some(want) {
                assert(!matching::slot_accepts(pattern@[i as int], window[0 + i]));
                return false;
            }
        }
        i = i + 1;
    }
    true
}

/// Offset of the leftmost match of `pattern` in `haystack` from `from` on.
///
/// The search jumps from one occurrence of the anchor byte to the next instead of trying every
/// offset.
pub fn scan_slice_from(haystack: &[u8], from: usize, pattern: WildcardPattern<'_>) -> (r: Option<
    usize,
>)
    ensures
        matching::offset(r) == matching::first_match(
            matching::readable_bytes(haystack@),
            pattern@,
            from as int,
        ),
{
    let pat_len: usize = pattern.len();
    if haystack.len() < pat_len {
        return None;
    }
    let upper: usize = haystack.len() - pat_len;
    if from > upper {
        return None;
    }
    let ghost hay = matching::readable_bytes(haystack@);
    let (anchor_off, anchor_byte) = match anchor(pattern) {
        Some(found) => found,
        None => {
            assert(matching::matches_at(hay, pattern@, from as int));
            return Some(from);
        },
    };
    let memory: MemoryRegion<'_> = MemoryRegion::new(0, haystack);
    let mut i: usize = from;
    while i <= upper
        invariant
            hay == matching::readable_bytes(haystack@),
            memory.base() == 0,
            memory.bytes() == haystack@,
            pat_len == pattern@.len(),
            upper + pat_len == haystack.len(),
            i <= upper + 1,
            anchor_off < pat_len,
            pattern@[anchor_off as int] == Some(anchor_byte),
            matching::first_match(hay, pattern@, from as int) == matching::first_match(
                hay,
                pattern@,
                i as int,
            ),
        decreases upper + 1 - i,
    {
        let search_from: usize = i + anchor_off;
        let rest: &[u8] = slice_subrange(haystack, search_from, haystack.len());
        let found: Option<usize> = first_byte_in_slice(rest, anchor_byte);
        proof {
            let rest_hay = matching::readable_bytes(rest@);
            assert(rest_hay =~= hay.subrange(search_from as int, hay.len() as int));
            lemma_skip_to_anchor(hay, rest_hay, pattern@, anchor_off, anchor_byte, i, found);
        }
        let rel: usize = match found {
            Some(rel) => rel,
            None => {
                return None;
            },
        };
        let candidate: usize = search_from + rel - anchor_off;
        if candidate > upper {
            return None;
        }
        proof {
            matching::lemma_match_in_window(
                hay,
                memory.window(candidate as int, pattern@.len() as int),
                pattern@,
                candidate as int,
            );
        }
        if matches_at(&memory, candidate, pattern) {
            return Some(candidate);
        }
        i = candidate + 1;
    }
    None
}

/// Offset of the leftmost match of `pattern` in `haystack`.
pub fn scan_slice(haystack: &[u8], pattern: WildcardPattern<'_>) -> (r: Option<usize>)
    ensures
        matching::offset(r) == matching::first_match(
            matching::readable_bytes(haystack@),
            pattern@,
            0,
        ),
{
    scan_slice_from(haystack, 0, pattern)
}

/// Number of non-overlapping matches of `pattern` in `haystack`.
pub fn count_slice(haystack: &[u8], pattern: WildcardPattern<'_>) -> (r: usize)
    requires
        0 < pattern@.len() <= haystack@.len(),
    ensures
        r == matching::match_offsets(matching::readable_bytes(haystack@), pattern@, 0).len(),
{
    let pat_len: usize = pattern.len();
    let upper: usize = haystack.len() - pat_len;
    let ghost hay = matching::readable_bytes(haystack@);
    let (anchor_off, anchor_byte) = match anchor(pattern) {
        Some(found) => found,
        None => {
            proof {
                matching::all_wildcards_tile(hay, pattern@, 0);
            }
            return haystack.len() / pat_len;
        },
    };
    let memory: MemoryRegion<'_> = MemoryRegion::new(0, haystack);
    let ghost total = matching::match_offsets(hay, pattern@, 0).len();
    let mut count: usize = 0;
    let mut i: usize = 0;
    while i <= upper
        invariant_except_break
            count + matching::match_offsets(hay, pattern@, i as int).len() == total,
        invariant
            hay == matching::readable_bytes(haystack@),
            total == matching::match_offsets(hay, pattern@, 0).len(),
            memory.base() == 0,
            memory.bytes() == haystack@,
            pat_len == pattern@.len(),
            upper + pat_len == haystack.len(),
            i <= haystack.len(),
            count <= i,
            anchor_off < pat_len,
            pattern@[anchor_off as int] == Some(anchor_byte),
        ensures
            count == total,
        decreases haystack.len() - i,
    {
        let search_from: usize = i + anchor_off;
        let rest: &[u8] = slice_subrange(haystack, search_from, haystack.len());
        let found: Option<usize> = first_byte_in_slice(rest, anchor_byte);
        proof {
            let rest_hay = matching::readable_bytes(rest@);
            assert(rest_hay =~= hay.subrange(search_from as int, hay.len() as int));
            lemma_skip_to_anchor(hay, rest_hay, pattern@, anchor_off, anchor_byte, i, found);
        }
        let rel: usize = match found {
            Some(rel) => rel,
            None => {
                break;
            },
        };
        let candidate: usize = search_from + rel - anchor_off;
        if candidate > upper {
            break;
        }
        proof {
            matching::lemma_match_in_window(
                hay,
                memory.window(candidate as int, pattern@.len() as int),
                pattern@,
                candidate as int,
            );
        }
        if matches_at(&memory, candidate, pattern) {
            count = count + 1;
            i = candidate + pat_len;
        } else {
            proof {
                matching::lemma_skip_to(hay, pattern@, candidate as int, candidate + 1);
            }
            i = candidate + 1;
        }
    }
    count
}

/// What the search for the anchor byte in `rest`, the scanned bytes from `i + at` on, says of the
/// matches from `i` on: they are those from the candidate on, or there are none.
proof fn lemma_skip_to_anchor(
    hay: Seq<Option<u8>>,
    rest: Seq<Option<u8>>,
    pattern: Seq<Option<u8>>,
    at: usize,
    byte: u8,
    i: usize,
    found: Option<usize>,
)
    requires
        at < pattern.len(),
        pattern[at as int] == Some(byte),
        i + at <= hay.len(),
        rest == hay.subrange(i + at, hay.len() as int),
        fastscan::is_first_readable(rest, byte, found),
    ensures
        ({
            let next: int = match found {
                Some(rel) => i + rel,
                None => hay.len() as int + 1,
            };
            &&& matching::first_match(hay, pattern, i as int) == matching::first_match(
                hay,
                pattern,
                next,
            )
            &&& matching::match_offsets(hay, pattern, i as int) == matching::match_offsets(
                hay,
                pattern,
                next,
            )
        }),
{
    let next: int = match found {
        Some(rel) => i + rel,
        None => hay.len() as int + 1,
    };
    assert forall|k: int| i + at <= k < next + at && 0 <= k < hay.len() implies hay[k] != Some(
        byte,
    ) by {
        assert(rest[k - (i + at)] != Some(byte));
    }
    matching::lemma_skip_without_anchor(hay, pattern, at as int, byte, i as int, next);
}

/// Offset, counted from `from`, of the first readable byte equal to `needle` in the range of
/// `size` addresses from `start` on, its first `from` addresses left out.
fn first_byte_from(
    memory: &MemoryRegion<'_>,
    start: usize,
    size: usize,
    from: usize,
    needle: u8,
) -> (r: Option<usize>)
    requires
        from <= size,
    ensures
        fastscan::is_first_readable(
            memory.window(start as int, size as int).subrange(from as int, size as int),
            needle,
            r,
        ),
{
    let ghost rest = memory.window(start as int, size as int).subrange(from as int, size as int);
    match start.checked_add(from) {
        Some(at) => {
            assert(rest =~= memory.window(at as int, size - from));
            first_byte_in_raw(memory, at, size - from, needle)
        },
        None => {
            proof {
                use_type_invariant(memory);
            }
            None
        },
    }
}

/// Address of the leftmost match of `pattern`, from the offset `from` on, in the range of `size`
/// addresses from `start` on.
pub fn scan_range_from(
    memory: &MemoryRegion<'_>,
    start: usize,
    size: usize,
    from: usize,
    pattern: WildcardPattern<'_>,
) -> (r: Option<usize>)
    ensures
        r == hits::address(
            start,
            matching::first_match(memory.window(start as int, size as int), pattern@, from as int),
        ),
{
    let pat_len: usize = pattern.len();
    if size < pat_len {
        return None;
    }
    let upper: usize = size - pat_len;
    if from > upper {
        return None;
    }
    let ghost hay = memory.window(start as int, size as int);
    let (anchor_off, anchor_byte) = match anchor(pattern) {
        Some(found) => found,
        None => {
            assert(matching::matches_at(hay, pattern@, from as int));
            return start.checked_add(from);
        },
    };
    let mut i: usize = from;
    while i <= upper
        invariant
            hay == memory.window(start as int, size as int),
            pat_len == pattern@.len(),
            upper + pat_len == size,
            i <= upper + 1,
            anchor_off < pat_len,
            pattern@[anchor_off as int] == Some(anchor_byte),
            matching::first_match(hay, pattern@, from as int) == matching::first_match(
                hay,
                pattern@,
                i as int,
            ),
        decreases upper + 1 - i,
    {
        let search_from: usize = i + anchor_off;
        let found: Option<usize> = first_byte_from(memory, start, size, search_from, anchor_byte);
        proof {
            let rest = hay.subrange(search_from as int, size as int);
            lemma_skip_to_anchor(hay, rest, pattern@, anchor_off, anchor_byte, i, found);
        }
        let rel: usize = match found {
            Some(rel) => rel,
            None => {
                return None;
            },
        };
        let candidate: usize = search_from + rel - anchor_off;
        if candidate > upper {
            return None;
        }
        proof {
            use_type_invariant(memory);
            assert(memory.byte_at(start + (search_from + rel)) is Some);
            matching::lemma_match_in_window(
                hay,
                memory.window(start + candidate, pattern@.len() as int),
                pattern@,
                candidate as int,
            );
        }
        let addr: usize = start + candidate;
        if matches_at(memory, addr, pattern) {
            return Some(addr);
        }
        i = candidate + 1;
    }
    None
}

/// Address of the leftmost match of `pattern` in the range of `size` addresses from `start` on.
pub fn scan_range(
    memory: &MemoryRegion<'_>,
    start: usize,
    size: usize,
    pattern: WildcardPattern<'_>,
) -> (r: Option<usize>)
    ensures
        r == hits::address(
            start,
            matching::first_match(memory.window(start as int, size as int), pattern@, 0),
        ),
{
    scan_range_from(memory, start, size, 0, pattern)
}

/// Number of non-overlapping matches of `pattern` in the range of `size` addresses from `start`
/// on.
pub fn count_range(
    memory: &MemoryRegion<'_>,
    start: usize,
    size: usize,
    pattern: WildcardPattern<'_>,
) -> (r: usize)
    requires
        pattern@.len() > 0,
    ensures
        r == matching::match_offsets(memory.window(start as int, size as int), pattern@, 0).len(),
{
    let pat_len: usize = pattern.len();
    if size < pat_len {
        return 0;
    }
    let upper: usize = size - pat_len;
    let ghost hay = memory.window(start as int, size as int);
    let (anchor_off, anchor_byte) = match anchor(pattern) {
        Some(found) => found,
        None => {
            proof {
                matching::all_wildcards_tile(hay, pattern@, 0);
            }
            return size / pat_len;
        },
    };
    let ghost total = matching::match_offsets(hay, pattern@, 0).len();
    let mut count: usize = 0;
    let mut i: usize = 0;
    while i <= upper
        invariant_except_break
            count + matching::match_offsets(hay, pattern@, i as int).len() == total,
        invariant
            hay == memory.window(start as int, size as int),
            total == matching::match_offsets(hay, pattern@, 0).len(),
            pat_len == pattern@.len(),
            upper + pat_len == size,
            i <= size,
            count <= i,
            anchor_off < pat_len,
            pattern@[anchor_off as int] == Some(anchor_byte),
        ensures
            count == total,
        decreases size - i,
    {
        let search_from: usize = i + anchor_off;
        let found: Option<usize> = first_byte_from(memory, start, size, search_from, anchor_byte);
        proof {
            let rest = hay.subrange(search_from as int, size as int);
            lemma_skip_to_anchor(hay, rest, pattern@, anchor_off, anchor_byte, i, found);
        }
        let rel: usize = match found {
            Some(rel) => rel,
            None => {
                break;
            },
        };
        let candidate: usize = search_from + rel - anchor_off;
        if candidate > upper {
            break;
        }
        proof {
            use_type_invariant(memory);
            assert(memory.byte_at(start + (search_from + rel)) is Some);
            matching::lemma_match_in_window(
                hay,
                memory.window(start + candidate, pattern@.len() as int),
                pattern@,
                candidate as int,
            );
        }
        let addr: usize = start + candidate;
        if matches_at(memory, addr, pattern) {
            count = count + 1;
            i = candidate + pat_len;
        } else {
            proof {
                matching::lemma_skip_to(hay, pattern@, candidate as int, candidate + 1);
            }
            i = candidate + 1;
        }
    }
    count
}

/// Address of the first byte of `bytes`, which `<[u8]>::as_ptr` gives. Where a slice lies is up to
/// the allocator: all that is claimed is that it ends inside the address space.
#[verifier::external_body]
pub(crate) fn slice_address(bytes: &[u8]) -> (address: usize)
    ensures
        address + bytes@.len() <= usize::MAX,
{
    bytes.as_ptr() as usize
}

/// `address` is one that [`slice_address`] gives for `bytes`: the address at which the slice lies.
pub closed spec fn is_address_of(bytes: &[u8], address: usize) -> bool {
    call_ensures(slice_address, (bytes,), address)
}

/// Only `<[u8]>::as_ptr` tells where a slice lies.
pub(crate) proof fn only_the_slice_tells_its_address(bytes: &[u8], address: usize)
    ensures
        is_address_of(bytes, address) <==> call_ensures(slice_address, (bytes,), address),
{
}

/// Find the first occurrence of `pattern` in `haystack`, whose first byte has the address `base`.
pub fn find_in_slice_at(base: usize, haystack: &[u8], pattern: WildcardPattern<'_>) -> (r: Option<
    usize,
>)
    requires
        base + haystack@.len() <= usize::MAX,
    ensures
        r == hits::slice_first_hit(base, haystack@, pattern@),
{
    if pattern.is_empty() || haystack.len() < pattern.len() {
        return None;
    }
    proof {
        matching::first_match_is_leftmost(
            matching::readable_bytes(haystack@),
            pattern@,
            0,
        );
    }
    match scan_slice(haystack, pattern) {
        Some(off) => Some(base + off),
        None => None,
    }
}

/// Find the first occurrence of `pattern` in `haystack`.
///
/// The result is the absolute address of the match, the address of `haystack` plus the offset of
/// the match in it, so that it compares with the addresses that the module scanners return.
/// `None` if the pattern is empty, longer than `haystack`, or does not match.
pub fn find_in_slice(haystack: &[u8], pattern: WildcardPattern<'_>) -> (r: Option<usize>)
    ensures
        exists|base: usize|
            {
                &&& is_address_of(haystack, base)
                &&& base + haystack@.len() <= usize::MAX
                &&& r == #[trigger] hits::slice_first_hit(base, haystack@, pattern@)
            },
{
    let base: usize = slice_address(haystack);
    find_in_slice_at(base, haystack, pattern)
}

/// Count the occurrences of `pattern` in `haystack`. They do not overlap: behind a match at the
/// offset `i` the search goes on at `i + pattern.len()`.
pub fn count_in_slice(haystack: &[u8], pattern: WildcardPattern<'_>) -> (r: usize)
    ensures
        r == matching::match_offsets(matching::readable_bytes(haystack@), pattern@, 0).len(),
{
    if pattern.is_empty() || haystack.len() < pattern.len() {
        return 0;
    }
    count_slice(haystack, pattern)
}

/// Find the first occurrence of `pattern` in the section named `.text` of the module loaded at
/// `module_base`.
///
/// `None` if the pattern is empty, the headers are malformed, there is no section named `.text`,
/// or the pattern does not match in it.
pub fn find_in_text(
    memory: &MemoryRegion<'_>,
    module_base: usize,
    pattern: WildcardPattern<'_>,
) -> (r: Option<usize>)
    ensures
        r == hits::first_hit(*memory, hits::text_ranges(*memory, module_base), pattern@, 0),
{
    if module_base == 0 || pattern.is_empty() {
        return None;
    }
    let ghost ranges = hits::text_ranges(*memory, module_base);
    let (start, size) = text_section_bounds(memory, module_base)?;
    assert(hits::first_hit(*memory, ranges, pattern@, 1) is None);
    scan_range(memory, start, size, pattern)
}

/// Count the occurrences of `pattern` in the section named `.text` of the module loaded at
/// `module_base`; `0` in the cases in which [`find_in_text`] finds nothing.
pub fn count_in_text(
    memory: &MemoryRegion<'_>,
    module_base: usize,
    pattern: WildcardPattern<'_>,
) -> (r: usize)
    ensures
        r == hits::hit_count(*memory, hits::text_ranges(*memory, module_base), pattern@, 0),
{
    let ghost ranges = hits::text_ranges(*memory, module_base);
    if pattern.is_empty() {
        proof {
            hits::an_empty_pattern_has_no_hits(*memory, ranges, pattern@, 0);
        }
        return 0;
    }
    if module_base == 0 {
        return 0;
    }
    assert(hits::hit_count(*memory, ranges, pattern@, 1) == 0);
    match text_section_bounds(memory, module_base) {
        Some((start, size)) => count_range(memory, start, size, pattern),
        None => 0,
    }
}

/// Find the first occurrence of `pattern` in any executable section of the module loaded at
/// `module_base`, the sections being searched in the order of the section table.
pub fn find_in_exec_sections(
    memory: &MemoryRegion<'_>,
    module_base: usize,
    pattern: WildcardPattern<'_>,
) -> (r: Option<usize>)
    ensures
        r == hits::first_hit(*memory, hits::exec_ranges(*memory, module_base), pattern@, 0),
{
    if module_base == 0 || pattern.is_empty() {
        return None;
    }
    let ranges: Vec<(usize, usize)> = exec_sections(memory, module_base)?;
    let mut i: usize = 0;
    while i < ranges.len()
        invariant
            ranges@ == hits::exec_ranges(*memory, module_base),
            pattern@.len() > 0,
            i <= ranges@.len(),
            hits::first_hit(*memory, ranges@, pattern@, 0) == hits::first_hit(
                *memory,
                ranges@,
                pattern@,
                i as int,
            ),
        decreases ranges@.len() - i,
    {
        let (start, size) = ranges[i];
        if let Some(addr) = scan_range(memory, start, size, pattern) {
            return Some(addr);
        }
        i = i + 1;
    }
    None
}

/// Count the occurrences of `pattern` in all executable sections of the module loaded at
/// `module_base`. A count that no word holds is given as the largest word.
pub fn count_in_exec_sections(
    memory: &MemoryRegion<'_>,
    module_base: usize,
    pattern: WildcardPattern<'_>,
) -> (r: usize)
    ensures
        r == hits::clamped(
            hits::hit_count(*memory, hits::exec_ranges(*memory, module_base), pattern@, 0),
        ),
{
    if pattern.is_empty() {
        proof {
            hits::an_empty_pattern_has_no_hits(
                *memory,
                hits::exec_ranges(*memory, module_base),
                pattern@,
                0,
            );
        }
        return 0;
    }
    if module_base == 0 {
        return 0;
    }
    let ranges: Vec<(usize, usize)> = match exec_sections(memory, module_base) {
        Some(ranges) => ranges,
        None => {
            return 0;
        },
    };
    let ghost all = hits::hit_count(*memory, ranges@, pattern@, 0);
    let mut total: usize = 0;
    let mut i: usize = 0;
    while i < ranges.len()
        invariant
            pattern@.len() > 0,
            i <= ranges@.len(),
            hits::clamped(all) == hits::clamped(
                total as nat + hits::hit_count(*memory, ranges@, pattern@, i as int),
            ),
        decreases ranges@.len() - i,
    {
        let (start, size) = ranges[i];
        total = total.saturating_add(count_range(memory, start, size, pattern));
        i = i + 1;
    }
    total
}

/// Find the first occurrence of `pattern` in the first section whose name begins with
/// `section_name`.
pub fn find_in_section(
    memory: &MemoryRegion<'_>,
    module_base: usize,
    section_name: &[u8],
    pattern: WildcardPattern<'_>,
) -> (r: Option<usize>)
    ensures
        r == hits::first_hit(
            *memory,
            hits::named_ranges(*memory, module_base, section_name@),
            pattern@,
            0,
        ),
{
    if module_base == 0 || pattern.is_empty() {
        return None;
    }
    let ghost ranges = hits::named_ranges(*memory, module_base, section_name@);
    let section: SectionInfo = find_section(memory, module_base, section_name)?;
    assert(hits::first_hit(*memory, ranges, pattern@, 1) is None);
    scan_range(memory, section.virtual_address, section.virtual_size, pattern)
}

/// Count the occurrences of `pattern` in the first section whose name begins with
/// `section_name`.
pub fn count_in_section(
    memory: &MemoryRegion<'_>,
    module_base: usize,
    section_name: &[u8],
    pattern: WildcardPattern<'_>,
) -> (r: usize)
    ensures
        r == hits::hit_count(
            *memory,
            hits::named_ranges(*memory, module_base, section_name@),
            pattern@,
            0,
        ),
{
    let ghost ranges = hits::named_ranges(*memory, module_base, section_name@);
    if pattern.is_empty() {
        proof {
            hits::an_empty_pattern_has_no_hits(*memory, ranges, pattern@, 0);
        }
        return 0;
    }
    if module_base == 0 {
        return 0;
    }
    assert(hits::hit_count(*memory, ranges, pattern@, 1) == 0);
    match find_section(memory, module_base, section_name) {
        Some(section) => count_range(
            memory,
            section.virtual_address,
            section.virtual_size,
            pattern,
        ),
        None => 0,
    }
}

/// Find the first occurrence of `pattern` in `regions`, which are searched one after the other.
pub fn find_in_regions(regions: &[MemoryRegion<'_>], pattern: WildcardPattern<'_>) -> (r: Option<
    usize,
>)
    ensures
        r == hits::region_first_hit(regions@, pattern@, 0),
{
    if pattern.is_empty() {
        return None;
    }
    let mut i: usize = 0;
    while i < regions.len()
        invariant
            pattern@.len() > 0,
            i <= regions@.len(),
            hits::region_first_hit(regions@, pattern@, 0) == hits::region_first_hit(
                regions@,
                pattern@,
                i as int,
            ),
        decreases regions@.len() - i,
    {
        let start: usize = regions[i].base_address();
        let size: usize = regions[i].as_bytes().len();
        if let Some(addr) = scan_range(&regions[i], start, size, pattern) {
            return Some(addr);
        }
        i = i + 1;
    }
    None
}

/// Count the occurrences of `pattern` in `regions`. A count that no word holds is given as the
/// largest word.
pub fn count_in_regions(regions: &[MemoryRegion<'_>], pattern: WildcardPattern<'_>) -> (r: usize)
    ensures
        r == hits::clamped(hits::region_hit_count(regions@, pattern@, 0)),
{
    let ghost all = hits::region_hit_count(regions@, pattern@, 0);
    let mut total: usize = 0;
    let mut i: usize = 0;
    while i < regions.len()
        invariant
            i <= regions@.len(),
            hits::clamped(all) == hits::clamped(
                total as nat + hits::region_hit_count(regions@, pattern@, i as int),
            ),
        decreases regions@.len() - i,
    {
        let start: usize = regions[i].base_address();
        let size: usize = regions[i].as_bytes().len();
        if !pattern.is_empty() {
            total = total.saturating_add(count_range(&regions[i], start, size, pattern));
        }
        i = i + 1;
    }
    total
}

} // verus!
