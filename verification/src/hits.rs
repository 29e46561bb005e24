//! What the scanners find: the addresses of matches in slices and in the sections of a module.
//!
//! A module is scanned range by range; a range is the address and the size of a section. An
//! address inside a range that is not mapped is an unreadable byte, see [`crate::matching`].
use vstd::prelude::*;

use crate::matching;
use crate::memory::MemoryRegion;
use crate::pe;

verus! {

/// The address `off` bytes after `start`, if the address space reaches that far.
pub open spec fn address(start: usize, off: Option<int>) -> Option<usize> {
    match off {
        Some(off) => if start + off <= usize::MAX {
            Some((start + off) as usize)
        } else {
            None
        },
        None => None,
    }
}

/// Address of the leftmost match of `pattern` in a slice that lies at `base`. An empty pattern
/// matches nowhere.
pub open spec fn slice_first_hit(
    base: usize,
    haystack: Seq<u8>,
    pattern: Seq<Option<u8>>,
) -> Option<usize> {
    if pattern.len() == 0 {
        None
    } else {
        match matching::first_match(matching::readable_bytes(haystack), pattern, 0) {
            Some(off) => Some((base + off) as usize),
            None => None,
        }
    }
}

/// Addresses of the non-overlapping matches of `pattern`, from the offset `from` on, in a slice
/// that lies at `base`.
pub open spec fn slice_hits(
    base: usize,
    haystack: Seq<u8>,
    pattern: Seq<Option<u8>>,
    from: int,
) -> Seq<usize> {
    matching::match_offsets(matching::readable_bytes(haystack), pattern, from).map_values(
        |off: int| (base + off) as usize,
    )
}

/// Addresses of the non-overlapping matches of `pattern` in a range, from the offset `from` on,
/// as far as the address space reaches.
pub open spec fn range_hits(
    memory: MemoryRegion<'_>,
    range: (usize, usize),
    pattern: Seq<Option<u8>>,
    from: int,
) -> Seq<usize>
    decreases range.1 - from + 1,
{
    let hay = memory.window(range.0 as int, range.1 as int);
    proof {
        matching::first_match_is_leftmost(hay, pattern, from);
    }
    match address(range.0, matching::first_match(hay, pattern, from)) {
        Some(addr) if pattern.len() > 0 => seq![addr] + range_hits(
            memory,
            range,
            pattern,
            addr - range.0 + pattern.len(),
        ),
        _ => Seq::empty(),
    }
}

/// Addresses of the non-overlapping matches of `pattern` in the ranges from the index `i` on, one
/// range after the other.
pub open spec fn hits(
    memory: MemoryRegion<'_>,
    ranges: Seq<(usize, usize)>,
    pattern: Seq<Option<u8>>,
    i: int,
) -> Seq<usize>
    decreases ranges.len() - i,
{
    if i >= ranges.len() {
        Seq::empty()
    } else {
        range_hits(memory, ranges[i], pattern, 0) + hits(memory, ranges, pattern, i + 1)
    }
}

/// Address of the leftmost match of `pattern` in the first range, from the index `i` on, that has
/// one. An empty pattern matches nowhere.
pub open spec fn first_hit(
    memory: MemoryRegion<'_>,
    ranges: Seq<(usize, usize)>,
    pattern: Seq<Option<u8>>,
    i: int,
) -> Option<usize>
    decreases ranges.len() - i,
{
    if i >= ranges.len() || pattern.len() == 0 {
        None
    } else {
        let hay = memory.window(ranges[i].0 as int, ranges[i].1 as int);
        match address(ranges[i].0, matching::first_match(hay, pattern, 0)) {
            Some(addr) => Some(addr),
            None => first_hit(memory, ranges, pattern, i + 1),
        }
    }
}

/// Number of non-overlapping matches of `pattern` in the ranges from the index `i` on.
pub open spec fn hit_count(
    memory: MemoryRegion<'_>,
    ranges: Seq<(usize, usize)>,
    pattern: Seq<Option<u8>>,
    i: int,
) -> nat
    decreases ranges.len() - i,
{
    if i >= ranges.len() {
        0
    } else {
        let hay = memory.window(ranges[i].0 as int, ranges[i].1 as int);
        matching::match_offsets(hay, pattern, 0).len() + hit_count(memory, ranges, pattern, i + 1)
    }
}

/// A count as a machine word holds it: the largest word stands for every count that does not fit.
pub open spec fn clamped(count: nat) -> usize {
    if count <= usize::MAX {
        count as usize
    } else {
        usize::MAX
    }
}

/// The range of a section as a list of ranges: empty where there is no section.
pub open spec fn one_range(bounds: Option<(usize, usize)>) -> Seq<(usize, usize)> {
    match bounds {
        Some(range) => seq![range],
        None => Seq::empty(),
    }
}

/// The range of the section named `.text`.
pub open spec fn text_ranges(memory: MemoryRegion<'_>, module_base: usize) -> Seq<(usize, usize)> {
    one_range(pe::bounds(pe::table_section(&memory, module_base, pe::SECTION_NAME_TEXT@)))
}

/// The range of the first section whose name begins with `name`.
pub open spec fn named_ranges(memory: MemoryRegion<'_>, module_base: usize, name: Seq<u8>) -> Seq<
    (usize, usize),
> {
    one_range(pe::bounds(pe::table_section(&memory, module_base, name)))
}

/// The ranges of the executable sections, in the order of the section table.
pub open spec fn exec_ranges(memory: MemoryRegion<'_>, module_base: usize) -> Seq<(usize, usize)> {
    match pe::sections(&memory, module_base) {
        Some(all) => pe::executable_ranges(all),
        None => Seq::empty(),
    }
}

/// The addresses of a region as a range.
pub open spec fn whole(region: MemoryRegion<'_>) -> (usize, usize) {
    (region.base() as usize, region.bytes().len() as usize)
}

/// Addresses of the non-overlapping matches of `pattern` in the regions from the index `i` on, one
/// region after the other.
pub open spec fn region_hits(
    regions: Seq<MemoryRegion<'_>>,
    pattern: Seq<Option<u8>>,
    i: int,
) -> Seq<usize>
    decreases regions.len() - i,
{
    if i >= regions.len() {
        Seq::empty()
    } else {
        range_hits(regions[i], whole(regions[i]), pattern, 0) + region_hits(
            regions,
            pattern,
            i + 1,
        )
    }
}

/// Address of the leftmost match of `pattern` in the first region, from the index `i` on, that has
/// one. An empty pattern matches nowhere.
pub open spec fn region_first_hit(
    regions: Seq<MemoryRegion<'_>>,
    pattern: Seq<Option<u8>>,
    i: int,
) -> Option<usize>
    decreases regions.len() - i,
{
    if i >= regions.len() || pattern.len() == 0 {
        None
    } else {
        let (start, size) = whole(regions[i]);
        let hay = regions[i].window(start as int, size as int);
        match address(start, matching::first_match(hay, pattern, 0)) {
            Some(addr) => Some(addr),
            None => region_first_hit(regions, pattern, i + 1),
        }
    }
}

/// Number of non-overlapping matches of `pattern` in the regions from the index `i` on.
pub open spec fn region_hit_count(
    regions: Seq<MemoryRegion<'_>>,
    pattern: Seq<Option<u8>>,
    i: int,
) -> nat
    decreases regions.len() - i,
{
    if i >= regions.len() {
        0
    } else {
        let (start, size) = whole(regions[i]);
        let hay = regions[i].window(start as int, size as int);
        matching::match_offsets(hay, pattern, 0).len() + region_hit_count(regions, pattern, i + 1)
    }
}

/// An empty pattern has no hits.
pub proof fn an_empty_pattern_has_no_hits(
    memory: MemoryRegion<'_>,
    ranges: Seq<(usize, usize)>,
    pattern: Seq<Option<u8>>,
    i: int,
)
    requires
        pattern.len() == 0,
    ensures
        hit_count(memory, ranges, pattern, i) == 0,
        hits(memory, ranges, pattern, i) == Seq::<usize>::empty(),
        first_hit(memory, ranges, pattern, i) is None,
    decreases ranges.len() - i,
{
    if i < ranges.len() {
        an_empty_pattern_has_no_hits(memory, ranges, pattern, i + 1);
        assert(hits(memory, ranges, pattern, i) =~= Seq::<usize>::empty());
    }
}

/// The address of a match of a pattern with a literal exists: the byte under the literal is
/// mapped.
proof fn lemma_literal_match_has_an_address(
    memory: MemoryRegion<'_>,
    range: (usize, usize),
    pattern: Seq<Option<u8>>,
    off: int,
)
    requires
        memory.ends_in_address_space(),
        !matching::all_wildcards(pattern),
        matching::matches_at(memory.window(range.0 as int, range.1 as int), pattern, off),
    ensures
        range.0 + off <= usize::MAX,
{
    let hay = memory.window(range.0 as int, range.1 as int);
    let k = choose|k: int| 0 <= k < pattern.len() && #[trigger] pattern[k] is Some;
    matching::a_literal_accepts_its_byte_alone(hay, pattern, off, k);
    assert(memory.byte_at(range.0 + (off + k)) is Some);
}

/// The address of the first match in a range exists.
proof fn lemma_first_match_has_an_address(
    memory: MemoryRegion<'_>,
    range: (usize, usize),
    pattern: Seq<Option<u8>>,
)
    requires
        memory.ends_in_address_space(),
    ensures
        matching::first_match(
            memory.window(range.0 as int, range.1 as int),
            pattern,
            0,
        ) matches Some(off) ==> range.0 + off <= usize::MAX,
{
    let hay = memory.window(range.0 as int, range.1 as int);
    matching::first_match_is_leftmost(hay, pattern, 0);
    if let Some(off) = matching::first_match(hay, pattern, 0) {
        if matching::all_wildcards(pattern) {
            assert(matching::matches_at(hay, pattern, 0));
        } else {
            lemma_literal_match_has_an_address(memory, range, pattern, off);
        }
    }
}

/// The addresses of the matches of `pattern` that are counted in a range exist.
pub open spec fn counted_matches_have_addresses(
    memory: MemoryRegion<'_>,
    range: (usize, usize),
    pattern: Seq<Option<u8>>,
    from: int,
) -> bool {
    let offs = matching::match_offsets(
        memory.window(range.0 as int, range.1 as int),
        pattern,
        from,
    );
    forall|j: int| 0 <= j < offs.len() ==> range.0 + #[trigger] offs[j] <= usize::MAX
}

/// The address of every match exists if the pattern has a literal or the range ends inside the
/// address space.
pub proof fn addresses_end_only_behind_wildcards(
    memory: MemoryRegion<'_>,
    range: (usize, usize),
    pattern: Seq<Option<u8>>,
)
    requires
        memory.ends_in_address_space(),
        !matching::all_wildcards(pattern) || range.0 + range.1 <= usize::MAX + 1,
    ensures
        counted_matches_have_addresses(memory, range, pattern, 0),
{
    let hay = memory.window(range.0 as int, range.1 as int);
    let offs = matching::match_offsets(hay, pattern, 0);
    matching::match_offsets_do_not_overlap(hay, pattern, 0);
    assert forall|j: int| 0 <= j < offs.len() implies range.0 + #[trigger] offs[j]
        <= usize::MAX by {
        assert(matching::matches_at(hay, pattern, offs[j]));
        if !matching::all_wildcards(pattern) {
            lemma_literal_match_has_an_address(memory, range, pattern, offs[j]);
        }
    }
}

/// As long as their addresses exist, the hits in a range are the addresses of the counted
/// matches.
pub proof fn range_hits_are_the_counted_matches(
    memory: MemoryRegion<'_>,
    range: (usize, usize),
    pattern: Seq<Option<u8>>,
    from: int,
)
    requires
        from >= 0,
        counted_matches_have_addresses(memory, range, pattern, from),
    ensures
        range_hits(memory, range, pattern, from) == matching::match_offsets(
            memory.window(range.0 as int, range.1 as int),
            pattern,
            from,
        ).map_values(|off: int| (range.0 + off) as usize),
    decreases range.1 - from + 1,
{
    let hay = memory.window(range.0 as int, range.1 as int);
    let offs = matching::match_offsets(hay, pattern, from);
    let to_address = |off: int| (range.0 + off) as usize;
    matching::first_match_is_leftmost(hay, pattern, from);
    if offs.len() > 0 {
        let next = offs[0] + pattern.len();
        let rest = matching::match_offsets(hay, pattern, next);
        assert forall|j: int| 0 <= j < rest.len() implies range.0 + #[trigger] rest[j]
            <= usize::MAX by {
            assert(offs[j + 1] == rest[j]);
        }
        range_hits_are_the_counted_matches(memory, range, pattern, next);
        assert(offs.map_values(to_address) =~= seq![to_address(offs[0])] + rest.map_values(
            to_address,
        ));
    } else {
        assert(offs.map_values(to_address) =~= Seq::<usize>::empty());
    }
}

/// Iterating over the matches gives as many addresses as counting them counts, as long as the
/// addresses of the counted matches exist.
pub proof fn iterating_agrees_with_counting(
    memory: MemoryRegion<'_>,
    ranges: Seq<(usize, usize)>,
    pattern: Seq<Option<u8>>,
    i: int,
)
    requires
        0 <= i,
        forall|r: int|
            i <= r < ranges.len() ==> counted_matches_have_addresses(
                memory,
                #[trigger] ranges[r],
                pattern,
                0,
            ),
    ensures
        hits(memory, ranges, pattern, i).len() == hit_count(memory, ranges, pattern, i),
    decreases ranges.len() - i,
{
    if i < ranges.len() {
        range_hits_are_the_counted_matches(memory, ranges[i], pattern, 0);
        iterating_agrees_with_counting(memory, ranges, pattern, i + 1);
    }
}

/// The first address that iterating over the matches gives is the one that finding gives.
pub proof fn iterating_begins_with_finding(
    memory: MemoryRegion<'_>,
    ranges: Seq<(usize, usize)>,
    pattern: Seq<Option<u8>>,
    i: int,
)
    ensures
        match first_hit(memory, ranges, pattern, i) {
            Some(addr) => hits(memory, ranges, pattern, i).len() > 0 && hits(
                memory,
                ranges,
                pattern,
                i,
            )[0] == addr,
            None => hits(memory, ranges, pattern, i).len() == 0,
        },
    decreases ranges.len() - i,
{
    if pattern.len() == 0 {
        an_empty_pattern_has_no_hits(memory, ranges, pattern, i);
    } else if i < ranges.len() {
        iterating_begins_with_finding(memory, ranges, pattern, i + 1);
        assert(range_hits(memory, ranges[i], pattern, 0).len() == 0 ==> hits(
            memory,
            ranges,
            pattern,
            i,
        ) =~= hits(memory, ranges, pattern, i + 1));
    }
}

/// A count of zero means that there is nothing to find, and the other way round.
pub proof fn counting_agrees_with_finding(
    memory: MemoryRegion<'_>,
    ranges: Seq<(usize, usize)>,
    pattern: Seq<Option<u8>>,
    i: int,
)
    requires
        memory.ends_in_address_space(),
        0 <= i,
    ensures
        hit_count(memory, ranges, pattern, i) == 0 <==> first_hit(
            memory,
            ranges,
            pattern,
            i,
        ) is None,
    decreases ranges.len() - i,
{
    if pattern.len() == 0 {
        an_empty_pattern_has_no_hits(memory, ranges, pattern, i);
    } else if i < ranges.len() {
        counting_agrees_with_finding(memory, ranges, pattern, i + 1);
        lemma_first_match_has_an_address(memory, ranges[i], pattern);
    }
}

/// Every address handed out is that of a match that lies inside one of the ranges: no match
/// crosses the bounds of a section.
pub proof fn hits_lie_inside_a_range(
    memory: MemoryRegion<'_>,
    ranges: Seq<(usize, usize)>,
    pattern: Seq<Option<u8>>,
    i: int,
    k: int,
)
    requires
        0 <= i,
        0 <= k < hits(memory, ranges, pattern, i).len(),
    ensures
        exists|r: int|
            i <= r < ranges.len() && {
                let addr = hits(memory, ranges, pattern, i)[k];
                let start = (#[trigger] ranges[r]).0;
                &&& start <= addr
                &&& addr + pattern.len() <= start + ranges[r].1
                &&& matching::matches_at(
                    memory.window(start as int, ranges[r].1 as int),
                    pattern,
                    addr - start,
                )
            },
    decreases ranges.len() - i,
{
    let here = range_hits(memory, ranges[i], pattern, 0);
    if k < here.len() {
        lemma_range_hits_inside(memory, ranges[i], pattern, 0, k);
        assert(hits(memory, ranges, pattern, i)[k] == here[k]);
    } else {
        let n = k - here.len();
        hits_lie_inside_a_range(memory, ranges, pattern, i + 1, n);
        assert(hits(memory, ranges, pattern, i)[k] == hits(memory, ranges, pattern, i + 1)[n]);
    }
}

/// Every hit in one range is the address of a match that lies inside it.
proof fn lemma_range_hits_inside(
    memory: MemoryRegion<'_>,
    range: (usize, usize),
    pattern: Seq<Option<u8>>,
    from: int,
    k: int,
)
    requires
        from >= 0,
        0 <= k < range_hits(memory, range, pattern, from).len(),
    ensures
        ({
            let addr = range_hits(memory, range, pattern, from)[k];
            &&& range.0 <= addr
            &&& addr + pattern.len() <= range.0 + range.1
            &&& matching::matches_at(
                memory.window(range.0 as int, range.1 as int),
                pattern,
                addr - range.0,
            )
        }),
    decreases range.1 - from + 1,
{
    let hay = memory.window(range.0 as int, range.1 as int);
    matching::first_match_is_leftmost(hay, pattern, from);
    let all = range_hits(memory, range, pattern, from);
    if k > 0 {
        let next = all[0] - range.0 + pattern.len();
        lemma_range_hits_inside(memory, range, pattern, next, k - 1);
        assert(all[k] == range_hits(memory, range, pattern, next)[k - 1]);
    }
}

/// In the ranges from the index `i` on, `pattern` matches at the offset `off` of the range `r`,
/// finding gives the address of that match, and any match begins inside it.
pub open spec fn is_only_match(
    memory: MemoryRegion<'_>,
    ranges: Seq<(usize, usize)>,
    pattern: Seq<Option<u8>>,
    i: int,
    r: int,
    off: int,
) -> bool {
    &&& i <= r < ranges.len()
    &&& matching::matches_at(
        memory.window(ranges[r].0 as int, ranges[r].1 as int),
        pattern,
        off,
    )
    &&& ranges[r].0 + off <= usize::MAX
    &&& first_hit(memory, ranges, pattern, i) == Some((ranges[r].0 + off) as usize)
    &&& forall|s: int, other: int|
        i <= s < ranges.len() && #[trigger] matching::matches_at(
            memory.window(ranges[s].0 as int, ranges[s].1 as int),
            pattern,
            other,
        ) ==> s == r && off <= other < off + pattern.len()
}

/// A pattern that is counted once matches at one place alone, and finding finds it there.
pub proof fn a_count_of_one_is_unique(
    memory: MemoryRegion<'_>,
    ranges: Seq<(usize, usize)>,
    pattern: Seq<Option<u8>>,
    i: int,
)
    requires
        memory.ends_in_address_space(),
        0 <= i,
        hit_count(memory, ranges, pattern, i) == 1,
    ensures
        exists|r: int, off: int| is_only_match(memory, ranges, pattern, i, r, off),
    decreases ranges.len() - i,
{
    if pattern.len() == 0 {
        an_empty_pattern_has_no_hits(memory, ranges, pattern, i);
    }
    let hay = memory.window(ranges[i].0 as int, ranges[i].1 as int);
    let here = matching::match_offsets(hay, pattern, 0);
    matching::first_match_is_leftmost(hay, pattern, 0);
    matching::match_offsets_begin_with_the_first_match(hay, pattern, 0);
    if here.len() == 0 {
        a_count_of_one_is_unique(memory, ranges, pattern, i + 1);
        let next = i + 1;
        let (r, off) = choose|r: int, off: int|
            is_only_match(memory, ranges, pattern, next, r, off);
        assert(is_only_match(memory, ranges, pattern, i, r, off));
    } else {
        let off = here[0];
        assert(ranges[i].0 + off <= usize::MAX) by {
            lemma_first_match_has_an_address(memory, ranges[i], pattern);
        }
        assert forall|s: int, other: int|
            i <= s < ranges.len() && #[trigger] matching::matches_at(
                memory.window(ranges[s].0 as int, ranges[s].1 as int),
                pattern,
                other,
            ) implies s == i && off <= other < off + pattern.len() by {
            if s == i {
                matching::every_match_begins_inside_a_counted_one(hay, pattern, 0, other);
            } else {
                lemma_match_is_counted(memory, ranges, pattern, i + 1, s, other);
            }
        }
        assert(is_only_match(memory, ranges, pattern, i, i, off));
    }
}

/// A match in one of the ranges is counted.
proof fn lemma_match_is_counted(
    memory: MemoryRegion<'_>,
    ranges: Seq<(usize, usize)>,
    pattern: Seq<Option<u8>>,
    i: int,
    s: int,
    off: int,
)
    requires
        pattern.len() > 0,
        0 <= i <= s < ranges.len(),
        matching::matches_at(
            memory.window(ranges[s].0 as int, ranges[s].1 as int),
            pattern,
            off,
        ),
    ensures
        hit_count(memory, ranges, pattern, i) > 0,
    decreases s - i,
{
    if i < s {
        lemma_match_is_counted(memory, ranges, pattern, i + 1, s, off);
    } else {
        let hay = memory.window(ranges[s].0 as int, ranges[s].1 as int);
        matching::every_match_begins_inside_a_counted_one(hay, pattern, 0, off);
    }
}

/// A module without readable, well-formed headers has nothing to scan; nor has address zero.
pub proof fn malformed_headers_leave_nothing_to_scan(
    memory: MemoryRegion<'_>,
    module_base: usize,
    name: Seq<u8>,
)
    requires
        module_base == 0 || pe::headers(&memory, module_base) is None,
    ensures
        text_ranges(memory, module_base) == Seq::<(usize, usize)>::empty(),
        exec_ranges(memory, module_base) == Seq::<(usize, usize)>::empty(),
        named_ranges(memory, module_base, name) == Seq::<(usize, usize)>::empty(),
        pe::size_of_image(&memory, module_base) is None,
{
}

/// In a slice, iterating gives as many addresses as counting counts, and begins with the one that
/// finding gives.
pub proof fn iterating_a_slice_agrees_with_counting_and_finding(
    base: usize,
    haystack: Seq<u8>,
    pattern: Seq<Option<u8>>,
)
    ensures
        slice_hits(base, haystack, pattern, 0).len() == matching::match_offsets(
            matching::readable_bytes(haystack),
            pattern,
            0,
        ).len(),
        match slice_first_hit(base, haystack, pattern) {
            Some(addr) => slice_hits(base, haystack, pattern, 0).len() > 0 && slice_hits(
                base,
                haystack,
                pattern,
                0,
            )[0] == addr,
            None => slice_hits(base, haystack, pattern, 0).len() == 0,
        },
{
}

/// Scanning a mapped section gives the addresses that scanning its bytes as a slice at the same
/// address gives.
pub proof fn a_mapped_section_is_scanned_like_a_slice(
    memory: MemoryRegion<'_>,
    range: (usize, usize),
    pattern: Seq<Option<u8>>,
)
    requires
        memory.ends_in_address_space(),
        memory.readable(range.0 as int, range.1 as int),
    ensures
        range_hits(memory, range, pattern, 0) == slice_hits(
            range.0,
            memory.bytes().subrange(range.0 - memory.base(), range.0 - memory.base() + range.1),
            pattern,
            0,
        ),
{
    let bytes = memory.bytes().subrange(
        range.0 - memory.base(),
        range.0 - memory.base() + range.1,
    );
    let hay = memory.window(range.0 as int, range.1 as int);
    assert(hay =~= matching::readable_bytes(bytes));
    addresses_end_only_behind_wildcards(memory, range, pattern);
    range_hits_are_the_counted_matches(memory, range, pattern, 0);
}

/// Only the bytes inside the ranges matter: memories that agree on them give the same results.
pub proof fn only_the_bytes_of_the_ranges_matter(
    a: MemoryRegion<'_>,
    b: MemoryRegion<'_>,
    ranges: Seq<(usize, usize)>,
    pattern: Seq<Option<u8>>,
    i: int,
)
    requires
        0 <= i,
        forall|r: int|
            i <= r < ranges.len() ==> a.window(
                (#[trigger] ranges[r]).0 as int,
                ranges[r].1 as int,
            ) == b.window(ranges[r].0 as int, ranges[r].1 as int),
    ensures
        first_hit(a, ranges, pattern, i) == first_hit(b, ranges, pattern, i),
        hit_count(a, ranges, pattern, i) == hit_count(b, ranges, pattern, i),
        hits(a, ranges, pattern, i) == hits(b, ranges, pattern, i),
    decreases ranges.len() - i,
{
    if i < ranges.len() {
        only_the_bytes_of_the_ranges_matter(a, b, ranges, pattern, i + 1);
        lemma_only_the_window_matters(a, b, ranges[i], pattern, 0);
    }
}

/// Only the bytes inside a range matter to its hits.
proof fn lemma_only_the_window_matters(
    a: MemoryRegion<'_>,
    b: MemoryRegion<'_>,
    range: (usize, usize),
    pattern: Seq<Option<u8>>,
    from: int,
)
    requires
        from >= 0,
        a.window(range.0 as int, range.1 as int) == b.window(range.0 as int, range.1 as int),
    ensures
        range_hits(a, range, pattern, from) == range_hits(b, range, pattern, from),
    decreases range.1 - from + 1,
{
    let hay = a.window(range.0 as int, range.1 as int);
    matching::first_match_is_leftmost(hay, pattern, from);
    if let Some(off) = matching::first_match(hay, pattern, from) {
        if pattern.len() > 0 {
            lemma_only_the_window_matters(a, b, range, pattern, off + pattern.len());
        }
    }
}

/// Scanning regions that hold the bytes of the ranges of a module, a region for each, gives what
/// scanning the module gives.
pub proof fn sections_may_be_mapped_one_by_one(
    memory: MemoryRegion<'_>,
    ranges: Seq<(usize, usize)>,
    regions: Seq<MemoryRegion<'_>>,
    pattern: Seq<Option<u8>>,
    i: int,
)
    requires
        0 <= i,
        regions.len() == ranges.len(),
        forall|r: int|
            i <= r < ranges.len() ==> {
                &&& whole(#[trigger] regions[r]) == ranges[r]
                &&& regions[r].window(ranges[r].0 as int, ranges[r].1 as int) == memory.window(
                    ranges[r].0 as int,
                    ranges[r].1 as int,
                )
            },
    ensures
        region_first_hit(regions, pattern, i) == first_hit(memory, ranges, pattern, i),
        region_hit_count(regions, pattern, i) == hit_count(memory, ranges, pattern, i),
        region_hits(regions, pattern, i) == hits(memory, ranges, pattern, i),
    decreases ranges.len() - i,
{
    if i < ranges.len() {
        assert(whole(regions[i]) == ranges[i]);
        sections_may_be_mapped_one_by_one(memory, ranges, regions, pattern, i + 1);
        lemma_only_the_window_matters(regions[i], memory, ranges[i], pattern, 0);
    }
}

/// The address of every byte of the region is a machine word, as its length is.
pub open spec fn is_addressable(region: MemoryRegion<'_>) -> bool {
    &&& region.ends_in_address_space()
    &&& 0 <= region.base() <= usize::MAX
    &&& region.bytes().len() <= usize::MAX
}

/// An empty pattern has no hits in any regions.
pub proof fn an_empty_pattern_has_no_hits_in_regions(
    regions: Seq<MemoryRegion<'_>>,
    pattern: Seq<Option<u8>>,
    i: int,
)
    requires
        pattern.len() == 0,
    ensures
        region_hit_count(regions, pattern, i) == 0,
        region_hits(regions, pattern, i) == Seq::<usize>::empty(),
        region_first_hit(regions, pattern, i) is None,
    decreases regions.len() - i,
{
    if i < regions.len() {
        an_empty_pattern_has_no_hits_in_regions(regions, pattern, i + 1);
        assert(region_hits(regions, pattern, i) =~= Seq::<usize>::empty());
    }
}

/// Iterating over the matches in regions gives as many addresses as counting them counts.
pub proof fn iterating_regions_agrees_with_counting(
    regions: Seq<MemoryRegion<'_>>,
    pattern: Seq<Option<u8>>,
    i: int,
)
    requires
        0 <= i,
        forall|r: int| i <= r < regions.len() ==> is_addressable(#[trigger] regions[r]),
    ensures
        region_hits(regions, pattern, i).len() == region_hit_count(regions, pattern, i),
    decreases regions.len() - i,
{
    if i < regions.len() {
        assert(is_addressable(regions[i]));
        addresses_end_only_behind_wildcards(regions[i], whole(regions[i]), pattern);
        range_hits_are_the_counted_matches(regions[i], whole(regions[i]), pattern, 0);
        iterating_regions_agrees_with_counting(regions, pattern, i + 1);
    }
}

/// The first address that iterating over the matches in regions gives is the one that finding
/// gives.
pub proof fn iterating_regions_begins_with_finding(
    regions: Seq<MemoryRegion<'_>>,
    pattern: Seq<Option<u8>>,
    i: int,
)
    ensures
        match region_first_hit(regions, pattern, i) {
            Some(addr) => region_hits(regions, pattern, i).len() > 0 && region_hits(
                regions,
                pattern,
                i,
            )[0] == addr,
            None => region_hits(regions, pattern, i).len() == 0,
        },
    decreases regions.len() - i,
{
    if pattern.len() == 0 {
        an_empty_pattern_has_no_hits_in_regions(regions, pattern, i);
    } else if i < regions.len() {
        iterating_regions_begins_with_finding(regions, pattern, i + 1);
        assert(range_hits(regions[i], whole(regions[i]), pattern, 0).len() == 0 ==> region_hits(
            regions,
            pattern,
            i,
        ) =~= region_hits(regions, pattern, i + 1));
    }
}

/// A count of zero in regions means that there is nothing to find, and the other way round.
pub proof fn counting_regions_agrees_with_finding(
    regions: Seq<MemoryRegion<'_>>,
    pattern: Seq<Option<u8>>,
    i: int,
)
    requires
        0 <= i,
        forall|r: int| i <= r < regions.len() ==> is_addressable(#[trigger] regions[r]),
    ensures
        region_hit_count(regions, pattern, i) == 0 <==> region_first_hit(
            regions,
            pattern,
            i,
        ) is None,
{
    iterating_regions_agrees_with_counting(regions, pattern, i);
    iterating_regions_begins_with_finding(regions, pattern, i);
}

/// Every address handed out is that of a match that lies inside one of the regions.
pub proof fn hits_lie_inside_a_region(
    regions: Seq<MemoryRegion<'_>>,
    pattern: Seq<Option<u8>>,
    i: int,
    k: int,
)
    requires
        0 <= i,
        forall|r: int| i <= r < regions.len() ==> is_addressable(#[trigger] regions[r]),
        0 <= k < region_hits(regions, pattern, i).len(),
    ensures
        exists|r: int|
            i <= r < regions.len() && {
                let addr = region_hits(regions, pattern, i)[k];
                let (start, size) = whole(#[trigger] regions[r]);
                &&& regions[r].readable(addr as int, pattern.len() as int)
                &&& matching::matches_at(
                    regions[r].window(start as int, size as int),
                    pattern,
                    addr - start,
                )
            },
    decreases regions.len() - i,
{
    let here = range_hits(regions[i], whole(regions[i]), pattern, 0);
    if k < here.len() {
        assert(is_addressable(regions[i]));
        lemma_range_hits_inside(regions[i], whole(regions[i]), pattern, 0, k);
        assert(region_hits(regions, pattern, i)[k] == here[k]);
    } else {
        let n = k - here.len();
        hits_lie_inside_a_region(regions, pattern, i + 1, n);
        assert(region_hits(regions, pattern, i)[k] == region_hits(regions, pattern, i + 1)[n]);
    }
}

/// In the regions from the index `i` on, `pattern` matches at the offset `off` of the region `r`,
/// finding gives the address of that match, and any match begins inside it.
pub open spec fn is_only_match_in_regions(
    regions: Seq<MemoryRegion<'_>>,
    pattern: Seq<Option<u8>>,
    i: int,
    r: int,
    off: int,
) -> bool {
    &&& i <= r < regions.len()
    &&& matching::matches_at(
        regions[r].window(whole(regions[r]).0 as int, whole(regions[r]).1 as int),
        pattern,
        off,
    )
    &&& whole(regions[r]).0 + off <= usize::MAX
    &&& region_first_hit(regions, pattern, i) == Some((whole(regions[r]).0 + off) as usize)
    &&& forall|s: int, other: int|
        i <= s < regions.len() && #[trigger] matching::matches_at(
            regions[s].window(whole(regions[s]).0 as int, whole(regions[s]).1 as int),
            pattern,
            other,
        ) ==> s == r && off <= other < off + pattern.len()
}

/// A pattern that is counted once in regions matches at one place alone, and finding finds it
/// there.
pub proof fn a_count_of_one_in_regions_is_unique(
    regions: Seq<MemoryRegion<'_>>,
    pattern: Seq<Option<u8>>,
    i: int,
)
    requires
        0 <= i,
        forall|r: int| i <= r < regions.len() ==> is_addressable(#[trigger] regions[r]),
        region_hit_count(regions, pattern, i) == 1,
    ensures
        exists|r: int, off: int| is_only_match_in_regions(regions, pattern, i, r, off),
    decreases regions.len() - i,
{
    if pattern.len() == 0 {
        an_empty_pattern_has_no_hits_in_regions(regions, pattern, i);
    }
    let range = whole(regions[i]);
    let hay = regions[i].window(range.0 as int, range.1 as int);
    let here = matching::match_offsets(hay, pattern, 0);
    matching::first_match_is_leftmost(hay, pattern, 0);
    matching::match_offsets_begin_with_the_first_match(hay, pattern, 0);
    if here.len() == 0 {
        a_count_of_one_in_regions_is_unique(regions, pattern, i + 1);
        let next = i + 1;
        let (r, off) = choose|r: int, off: int|
            is_only_match_in_regions(regions, pattern, next, r, off);
        assert(is_only_match_in_regions(regions, pattern, i, r, off));
    } else {
        let off = here[0];
        assert(range.0 + off <= usize::MAX) by {
            assert(is_addressable(regions[i]));
            lemma_first_match_has_an_address(regions[i], range, pattern);
        }
        assert forall|s: int, other: int|
            i <= s < regions.len() && #[trigger] matching::matches_at(
                regions[s].window(whole(regions[s]).0 as int, whole(regions[s]).1 as int),
                pattern,
                other,
            ) implies s == i && off <= other < off + pattern.len() by {
            if s == i {
                matching::every_match_begins_inside_a_counted_one(hay, pattern, 0, other);
            } else {
                lemma_match_in_regions_is_counted(regions, pattern, i + 1, s, other);
            }
        }
        assert(is_only_match_in_regions(regions, pattern, i, i, off));
    }
}

/// A match in one of the regions is counted.
proof fn lemma_match_in_regions_is_counted(
    regions: Seq<MemoryRegion<'_>>,
    pattern: Seq<Option<u8>>,
    i: int,
    s: int,
    off: int,
)
    requires
        pattern.len() > 0,
        0 <= i <= s < regions.len(),
        matching::matches_at(
            regions[s].window(whole(regions[s]).0 as int, whole(regions[s]).1 as int),
            pattern,
            off,
        ),
    ensures
        region_hit_count(regions, pattern, i) > 0,
    decreases s - i,
{
    if i < s {
        lemma_match_in_regions_is_counted(regions, pattern, i + 1, s, off);
    } else {
        let range = whole(regions[s]);
        let hay = regions[s].window(range.0 as int, range.1 as int);
        matching::every_match_begins_inside_a_counted_one(hay, pattern, 0, off);
    }
}

/// A match found in sections that are mapped is mapped itself, so any part of it can be read: the
/// displacement of a matched instruction can be resolved.
pub proof fn a_match_found_can_be_read(
    memory: MemoryRegion<'_>,
    ranges: Seq<(usize, usize)>,
    pattern: Seq<Option<u8>>,
    offset: int,
    len: int,
)
    requires
        forall|r: int|
            0 <= r < ranges.len() ==> memory.readable(
                (#[trigger] ranges[r]).0 as int,
                ranges[r].1 as int,
            ),
        0 <= offset,
        0 <= len,
        offset + len <= pattern.len(),
    ensures
        first_hit(memory, ranges, pattern, 0) matches Some(addr) ==> memory.readable(
            addr + offset,
            len,
        ),
{
    iterating_begins_with_finding(memory, ranges, pattern, 0);
    if first_hit(memory, ranges, pattern, 0) is Some {
        hits_lie_inside_a_range(memory, ranges, pattern, 0, 0);
    }
}

/// The range of an executable section named `.text` is one of the executable ranges, so what
/// lies in it is found in the executable sections too.
pub proof fn an_executable_text_section_is_scanned_as_executable(
    memory: MemoryRegion<'_>,
    module_base: usize,
)
    requires
        pe::sections(&memory, module_base) is Some,
        pe::table_section(&memory, module_base, pe::SECTION_NAME_TEXT@) matches Some(section)
            && section.executable(),
    ensures
        exec_ranges(memory, module_base).contains(text_ranges(memory, module_base)[0]),
{
    let name = pe::SECTION_NAME_TEXT@;
    let all = pe::sections(&memory, module_base)->0;
    let hdr = pe::headers(&memory, module_base)->0;
    pe::the_section_found_is_the_first_of_its_name(&memory, hdr, name, 0);
    let k = choose|k: int|
        0 <= k < hdr.num_sections && #[trigger] pe::nth_section(&memory, hdr, k)
            == pe::first_named_in_table(&memory, hdr, name, 0);
    assert(all[k] == pe::table_section(&memory, module_base, name)->0);
    pe::executable_ranges_are_those_of_executable_sections(
        all,
        text_ranges(memory, module_base)[0],
    );
}

} // verus!
