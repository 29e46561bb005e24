//! What is found is what is there: the leftmost occurrence, and all of them without overlap.
use vstd::prelude::*;

use crate::hits;
use crate::iter::{iter_in_regions, iter_in_slice, iter_in_slice_at, Matches, SliceMatches};
use crate::matching;
use crate::memory::MemoryRegion;
use crate::scan;
use crate::scan::{
    count_in_regions, count_in_slice, find_in_regions, find_in_slice, find_in_slice_at,
};

verus! {

/// A run of addresses to search, `size` of them from `start` on, in a memory of which `bytes` are
/// mapped from `base` on.
pub ghost struct Place {
    pub bytes: Seq<u8>,
    pub base: int,
    pub start: int,
    pub size: int,
}

/// The pattern lies inside the place at `addr`, and under each of its literals that byte is
/// mapped.
pub open spec fn occurs(place: Place, pattern: Seq<Option<u8>>, addr: int) -> bool {
    &&& place.start <= addr
    &&& addr + pattern.len() <= place.start + place.size
    &&& forall|i: int|
        0 <= i < pattern.len() && (#[trigger] pattern[i]) is Some ==> {
            &&& 0 <= addr + i - place.base < place.bytes.len()
            &&& place.bytes[addr + i - place.base] == pattern[i]->0
        }
}

/// No occurrence of the pattern in the place begins before `end`.
pub open spec fn none_before(place: Place, pattern: Seq<Option<u8>>, end: int) -> bool {
    forall|a: int| a < end ==> !#[trigger] occurs(place, pattern, a)
}

/// The pattern does not occur in the place.
pub open spec fn none_at_all(place: Place, pattern: Seq<Option<u8>>) -> bool {
    forall|a: int| !#[trigger] occurs(place, pattern, a)
}

/// `addr` is the leftmost occurrence of the pattern in the first of the places that has one.
pub open spec fn is_first(places: Seq<Place>, pattern: Seq<Option<u8>>, addr: int) -> bool {
    exists|k: int|
        {
            &&& 0 <= k < places.len()
            &&& occurs(#[trigger] places[k], pattern, addr)
            &&& none_before(places[k], pattern, addr)
            &&& forall|j: int| 0 <= j < k ==> none_at_all(#[trigger] places[j], pattern)
        }
}

/// What finding gives: the first occurrence, nothing if there is none or the pattern is empty.
pub open spec fn is_found(places: Seq<Place>, pattern: Seq<Option<u8>>, r: Option<usize>) -> bool {
    if pattern.len() == 0 {
        r is None
    } else {
        match r {
            Some(addr) => is_first(places, pattern, addr as int),
            None => forall|j: int| 0 <= j < places.len() ==> none_at_all(
                #[trigger] places[j],
                pattern,
            ),
        }
    }
}

/// `addrs` are occurrences of the pattern in the place that do not overlap, in ascending order, and
/// every occurrence begins inside one of them. An empty pattern has none.
pub open spec fn covers(place: Place, pattern: Seq<Option<u8>>, addrs: Seq<int>) -> bool {
    if pattern.len() == 0 {
        addrs.len() == 0
    } else {
        &&& forall|k: int| 0 <= k < addrs.len() ==> occurs(place, pattern, #[trigger] addrs[k])
        &&& forall|j: int, k: int|
            0 <= j < k < addrs.len() ==> #[trigger] addrs[j] + pattern.len() <= #[trigger] addrs[k]
        &&& forall|a: int| #[trigger]
            occurs(place, pattern, a) ==> begins_inside(addrs, pattern.len() as int, a)
    }
}

/// `a` lies in one of the runs of `len` addresses that begin at `addrs`.
#[verifier::opaque]
pub open spec fn begins_inside(addrs: Seq<int>, len: int, a: int) -> bool {
    exists|k: int| 0 <= k < addrs.len() && #[trigger] addrs[k] <= a < addrs[k] + len
}

/// The run that an address lies in.
proof fn lemma_run(addrs: Seq<int>, len: int, a: int) -> (k: int)
    requires
        begins_inside(addrs, len, a),
    ensures
        0 <= k < addrs.len(),
        addrs[k] <= a < addrs[k] + len,
{
    reveal(begins_inside);
    choose|k: int| 0 <= k < addrs.len() && #[trigger] addrs[k] <= a < addrs[k] + len
}

/// `lists` holds such occurrences for each of the places.
pub open spec fn covers_all(
    places: Seq<Place>,
    pattern: Seq<Option<u8>>,
    lists: Seq<Seq<int>>,
) -> bool {
    &&& lists.len() == places.len()
    &&& forall|k: int| 0 <= k < places.len() ==> covers(#[trigger] places[k], pattern, lists[k])
}

/// What counting gives: how many occurrences without overlap there are in all the places. The
/// largest word stands for any larger number.
pub open spec fn is_counted(places: Seq<Place>, pattern: Seq<Option<u8>>, r: usize) -> bool {
    exists|lists: Seq<Seq<int>>|
        {
            &&& #[trigger] covers_all(places, pattern, lists)
            &&& r == lists.flatten().len() || (r == usize::MAX && lists.flatten().len() > r)
        }
}

/// What iterating gives: all occurrences without overlap, place by place.
pub open spec fn is_listed(places: Seq<Place>, pattern: Seq<Option<u8>>, r: Seq<usize>) -> bool {
    exists|lists: Seq<Seq<int>>|
        {
            &&& #[trigger] covers_all(places, pattern, lists)
            &&& r.map_values(|a: usize| a as int) == lists.flatten()
        }
}

/// The occurrences without overlap are determined: there is only one way to choose them.
pub proof fn occurrences_are_chosen_in_one_way(
    place: Place,
    pattern: Seq<Option<u8>>,
    a: Seq<int>,
    b: Seq<int>,
)
    requires
        covers(place, pattern, a),
        covers(place, pattern, b),
    ensures
        a == b,
{
    if pattern.len() > 0 {
        lemma_same_choice(place, pattern, a, b, if a.len() < b.len() {
            a.len() as int
        } else {
            b.len() as int
        });
        if a.len() < b.len() {
            lemma_no_more(place, pattern, a, b);
        } else if b.len() < a.len() {
            lemma_no_more(place, pattern, b, a);
        }
    }
    assert(a =~= b);
}

/// The first `n` chosen occurrences are the same.
proof fn lemma_same_choice(
    place: Place,
    pattern: Seq<Option<u8>>,
    a: Seq<int>,
    b: Seq<int>,
    n: int,
)
    requires
        pattern.len() > 0,
        covers(place, pattern, a),
        covers(place, pattern, b),
        0 <= n <= a.len(),
        n <= b.len(),
    ensures
        forall|k: int| 0 <= k < n ==> #[trigger] a[k] == b[k],
    decreases n,
{
    if n > 0 {
        lemma_same_choice(place, pattern, a, b, n - 1);
        let m = n - 1;
        lemma_not_later(place, pattern, a, b, m);
        lemma_not_later(place, pattern, b, a, m);
    }
}

/// If the choices agree up to the index `m`, that of `b` there begins no later than that of `a`.
proof fn lemma_not_later(
    place: Place,
    pattern: Seq<Option<u8>>,
    a: Seq<int>,
    b: Seq<int>,
    m: int,
)
    requires
        pattern.len() > 0,
        covers(place, pattern, a),
        covers(place, pattern, b),
        0 <= m < a.len(),
        m < b.len(),
        forall|k: int| 0 <= k < m ==> #[trigger] a[k] == b[k],
    ensures
        b[m] <= a[m],
{
    assert(occurs(place, pattern, a[m]));
    let k = lemma_run(b, pattern.len() as int, a[m]);
    if k < m {
        assert(a[k] == b[k]);
        assert(a[k] + pattern.len() <= a[m]);
    } else if k > m {
        assert(b[m] + pattern.len() <= b[k]);
    }
}

/// A choice that begins with all of another is no longer than it.
proof fn lemma_no_more(place: Place, pattern: Seq<Option<u8>>, a: Seq<int>, b: Seq<int>)
    requires
        pattern.len() > 0,
        covers(place, pattern, a),
        covers(place, pattern, b),
        forall|k: int| 0 <= k < a.len() ==> #[trigger] a[k] == b[k],
    ensures
        b.len() <= a.len(),
{
    if a.len() < b.len() {
        let m = a.len() as int;
        assert(occurs(place, pattern, b[m]));
        let k = lemma_run(a, pattern.len() as int, b[m]);
        assert(b[k] + pattern.len() <= b[m]);
    }
}

/// The bytes of the region lie in the address space.
pub open spec fn is_mapped(region: MemoryRegion<'_>) -> bool {
    &&& 0 <= region.base() <= usize::MAX
    &&& region.bytes().len() <= usize::MAX
    &&& region.base() + region.bytes().len() <= usize::MAX + 1
}

/// A region maps the bytes that it is made of from its base on, and nothing else: that is what it
/// tells and what a byte read from it is.
pub proof fn a_region_maps_its_bytes<'a>(
    base: usize,
    bytes: &'a [u8],
    region: MemoryRegion<'a>,
    told_base: usize,
    told_bytes: &'a [u8],
    addr: usize,
    byte: Option<u8>,
)
    requires
        base + bytes@.len() <= usize::MAX + 1,
        bytes@.len() <= usize::MAX,
        call_ensures(MemoryRegion::new, (base, bytes), region),
        call_ensures(MemoryRegion::base_address, (&region,), told_base),
        call_ensures(MemoryRegion::as_bytes, (&region,), told_bytes),
        call_ensures(MemoryRegion::read_byte, (&region, addr), byte),
    ensures
        is_mapped(region),
        region.base() == base,
        region.bytes() == bytes@,
        told_base == base,
        told_bytes@ == bytes@,
        base <= addr < base + bytes@.len() ==> byte == Some(bytes@[addr - base]),
        !(base <= addr < base + bytes@.len()) ==> byte is None,
{
}

/// The addresses of a range, in the memory that they are read from.
pub open spec fn place_of(memory: MemoryRegion<'_>, range: (usize, usize)) -> Place {
    Place {
        bytes: memory.bytes(),
        base: memory.base(),
        start: range.0 as int,
        size: range.1 as int,
    }
}

/// The ranges in one memory.
pub open spec fn places_of(memory: MemoryRegion<'_>, ranges: Seq<(usize, usize)>) -> Seq<Place> {
    Seq::new(ranges.len(), |k: int| place_of(memory, ranges[k]))
}

/// A region of its own.
pub open spec fn region_place(region: MemoryRegion<'_>) -> Place {
    Place {
        bytes: region.bytes(),
        base: region.base(),
        start: region.base(),
        size: region.bytes().len() as int,
    }
}

/// A slice that lies at `base`.
pub open spec fn slice_place(base: usize, haystack: Seq<u8>) -> Place {
    Place { bytes: haystack, base: base as int, start: base as int, size: haystack.len() as int }
}

/// A pattern matches exactly where the bytes under all of its literals are theirs, however long it
/// is.
pub proof fn a_match_is_an_occurrence(
    memory: MemoryRegion<'_>,
    range: (usize, usize),
    pattern: Seq<Option<u8>>,
    off: int,
)
    ensures
        matching::matches_at(
            memory.window(range.0 as int, range.1 as int),
            pattern,
            off,
        ) <==> occurs(place_of(memory, range), pattern, range.0 + off),
{
    let hay = memory.window(range.0 as int, range.1 as int);
    let place = place_of(memory, range);
    if occurs(place, pattern, range.0 + off) {
        assert forall|i: int| 0 <= i < pattern.len() implies matching::slot_accepts(
            #[trigger] pattern[i],
            hay[off + i],
        ) by {
            assert(hay[off + i] == memory.byte_at(range.0 + (off + i)));
        }
    }
    if matching::matches_at(hay, pattern, off) {
        assert forall|i: int| 0 <= i < pattern.len() && (#[trigger] pattern[i]) is Some implies {
            &&& 0 <= range.0 + off + i - place.base < place.bytes.len()
            &&& place.bytes[range.0 + off + i - place.base] == pattern[i]->0
        } by {
            assert(matching::slot_accepts(pattern[i], hay[off + i]));
            assert(hay[off + i] == memory.byte_at(range.0 + (off + i)));
        }
    }
}

/// A pattern matches in scanned bytes exactly where each of its slots is a wildcard or the byte
/// under it, however long it is.
pub proof fn a_match_is_complete(hay: Seq<Option<u8>>, pattern: Seq<Option<u8>>, off: int)
    requires
        0 <= off,
        off + pattern.len() <= hay.len(),
        forall|i: int|
            0 <= i < pattern.len() ==> (#[trigger] pattern[i]) is None || hay[off + i]
                == pattern[i],
    ensures
        matching::matches_at(hay, pattern, off),
        matching::first_match(hay, pattern, 0) matches Some(first) && first <= off,
        pattern.len() > 0 ==> matching::match_offsets(hay, pattern, 0).len() > 0,
{
    assert(matching::matches_at(hay, pattern, off));
    matching::first_match_is_leftmost(hay, pattern, 0);
    if pattern.len() > 0 {
        matching::match_offsets_begin_with_the_first_match(hay, pattern, 0);
    }
}

/// The offsets as addresses.
spec fn addresses(start: int, offs: Seq<int>) -> Seq<int> {
    offs.map_values(|off: int| start + off)
}

/// The counted offsets in a range cover its occurrences, and the first match is the leftmost of
/// them.
proof fn lemma_range(memory: MemoryRegion<'_>, range: (usize, usize), pattern: Seq<Option<u8>>)
    requires
        memory.ends_in_address_space(),
    ensures
        ({
            let hay = memory.window(range.0 as int, range.1 as int);
            let place = place_of(memory, range);
            &&& covers(
                place,
                pattern,
                addresses(range.0 as int, matching::match_offsets(hay, pattern, 0)),
            )
            &&& match hits::address(range.0, matching::first_match(hay, pattern, 0)) {
                Some(addr) => occurs(place, pattern, addr as int) && none_before(
                    place,
                    pattern,
                    addr as int,
                ),
                None => none_at_all(place, pattern),
            }
        }),
{
    let hay = memory.window(range.0 as int, range.1 as int);
    let place = place_of(memory, range);
    let offs = matching::match_offsets(hay, pattern, 0);
    let addrs = addresses(range.0 as int, offs);
    assert forall|a: int| #[trigger] occurs(place, pattern, a) <==> matching::matches_at(
        hay,
        pattern,
        a - range.0,
    ) by {
        a_match_is_an_occurrence(memory, range, pattern, a - range.0);
    }
    matching::first_match_is_leftmost(hay, pattern, 0);
    if let Some(off) = matching::first_match(hay, pattern, 0) {
        if matching::all_wildcards(pattern) {
            assert(matching::matches_at(hay, pattern, 0));
        } else {
            let k = choose|k: int| 0 <= k < pattern.len() && #[trigger] pattern[k] is Some;
            assert(occurs(place, pattern, range.0 + off));
            assert(pattern[k] is Some);
        }
        assert(occurs(place, pattern, range.0 + off));
    }
    if pattern.len() > 0 {
        matching::match_offsets_do_not_overlap(hay, pattern, 0);
        assert forall|k: int| 0 <= k < addrs.len() implies occurs(
            place,
            pattern,
            #[trigger] addrs[k],
        ) by {
            assert(matching::matches_at(hay, pattern, offs[k]));
        }
        assert forall|a: int| #[trigger] occurs(place, pattern, a) implies begins_inside(
            addrs,
            pattern.len() as int,
            a,
        ) by {
            reveal(begins_inside);
            let off = a - range.0;
            matching::every_match_begins_inside_a_counted_one(hay, pattern, 0, off);
            let k = choose|k: int|
                0 <= k < offs.len() && #[trigger] offs[k] <= off < offs[k] + pattern.len();
            assert(addrs[k] <= a < addrs[k] + pattern.len());
        }
    }
}

/// The addresses of the counted matches in each range.
spec fn range_lists(
    memory: MemoryRegion<'_>,
    ranges: Seq<(usize, usize)>,
    pattern: Seq<Option<u8>>,
) -> Seq<Seq<int>> {
    Seq::new(
        ranges.len(),
        |k: int|
            addresses(
                ranges[k].0 as int,
                matching::match_offsets(
                    memory.window(ranges[k].0 as int, ranges[k].1 as int),
                    pattern,
                    0,
                ),
            ),
    )
}

/// The count in ranges is the number of their addresses.
proof fn lemma_ranges_counted(
    memory: MemoryRegion<'_>,
    ranges: Seq<(usize, usize)>,
    pattern: Seq<Option<u8>>,
    i: int,
)
    requires
        0 <= i <= ranges.len(),
    ensures
        hits::hit_count(memory, ranges, pattern, i) == range_lists(memory, ranges, pattern).skip(
            i,
        ).flatten().len(),
    decreases ranges.len() - i,
{
    let lists = range_lists(memory, ranges, pattern);
    if i < ranges.len() {
        lemma_ranges_counted(memory, ranges, pattern, i + 1);
        assert(lists.skip(i).drop_first() =~= lists.skip(i + 1));
        assert(lists.skip(i).first() == lists[i]);
    }
}

/// The hits in ranges are their addresses.
proof fn lemma_ranges_listed(
    memory: MemoryRegion<'_>,
    ranges: Seq<(usize, usize)>,
    pattern: Seq<Option<u8>>,
    i: int,
)
    requires
        0 <= i <= ranges.len(),
        memory.ends_in_address_space(),
        forall|k: int|
            0 <= k < ranges.len() ==> has_literal(pattern) || (#[trigger] ranges[k]).0
                + ranges[k].1 <= usize::MAX + 1,
    ensures
        hits::hits(memory, ranges, pattern, i).map_values(|a: usize| a as int) == range_lists(
            memory,
            ranges,
            pattern,
        ).skip(i).flatten(),
    decreases ranges.len() - i,
{
    let lists = range_lists(memory, ranges, pattern);
    let word = |a: usize| a as int;
    if i < ranges.len() {
        lemma_ranges_listed(memory, ranges, pattern, i + 1);
        assert(lists.skip(i).drop_first() =~= lists.skip(i + 1));
        assert(lists.skip(i).first() == lists[i]);
        let here = hits::range_hits(memory, ranges[i], pattern, 0);
        let rest = hits::hits(memory, ranges, pattern, i + 1);
        lemma_range_listed(memory, ranges[i], pattern);
        assert(hits::hits(memory, ranges, pattern, i).map_values(word) =~= here.map_values(word)
            + rest.map_values(word));
    } else {
        assert(hits::hits(memory, ranges, pattern, i).map_values(word) =~= Seq::<int>::empty());
    }
}

/// The pattern has a slot that is no wildcard.
pub open spec fn has_literal(pattern: Seq<Option<u8>>) -> bool {
    exists|i: int| 0 <= i < pattern.len() && (#[trigger] pattern[i]) is Some
}

/// The hits in one range are its addresses.
proof fn lemma_range_listed(
    memory: MemoryRegion<'_>,
    range: (usize, usize),
    pattern: Seq<Option<u8>>,
)
    requires
        memory.ends_in_address_space(),
        has_literal(pattern) || range.0 + range.1 <= usize::MAX + 1,
    ensures
        hits::range_hits(memory, range, pattern, 0).map_values(|a: usize| a as int) == addresses(
            range.0 as int,
            matching::match_offsets(
                memory.window(range.0 as int, range.1 as int),
                pattern,
                0,
            ),
        ),
{
    let hay = memory.window(range.0 as int, range.1 as int);
    let offs = matching::match_offsets(hay, pattern, 0);
    let word = |a: usize| a as int;
    if has_literal(pattern) {
        assert(!matching::all_wildcards(pattern));
    }
    hits::addresses_end_only_behind_wildcards(memory, range, pattern);
    hits::range_hits_are_the_counted_matches(memory, range, pattern, 0);
    matching::match_offsets_do_not_overlap(hay, pattern, 0);
    let found = hits::range_hits(memory, range, pattern, 0);
    assert forall|k: int| 0 <= k < found.len() implies #[trigger] found.map_values(word)[k]
        == addresses(range.0 as int, offs)[k] by {
        assert(matching::matches_at(hay, pattern, offs[k]));
        assert(range.0 + offs[k] <= usize::MAX);
    }
    assert(found.map_values(word) =~= addresses(range.0 as int, offs));
}

/// What is found in ranges is the first occurrence.
proof fn lemma_ranges_found(
    memory: MemoryRegion<'_>,
    ranges: Seq<(usize, usize)>,
    pattern: Seq<Option<u8>>,
    i: int,
)
    requires
        0 <= i <= ranges.len(),
        memory.ends_in_address_space(),
        pattern.len() > 0,
        forall|j: int|
            0 <= j < i ==> none_at_all(#[trigger] places_of(memory, ranges)[j], pattern),
    ensures
        is_found(
            places_of(memory, ranges),
            pattern,
            hits::first_hit(memory, ranges, pattern, i),
        ),
    decreases ranges.len() - i,
{
    let places = places_of(memory, ranges);
    if i < ranges.len() {
        lemma_range(memory, ranges[i], pattern);
        let hay = memory.window(ranges[i].0 as int, ranges[i].1 as int);
        match hits::address(ranges[i].0, matching::first_match(hay, pattern, 0)) {
            Some(addr) => {
                assert(occurs(places[i], pattern, addr as int));
                assert(none_before(places[i], pattern, addr as int));
            },
            None => {
                assert(none_at_all(places[i], pattern));
                lemma_ranges_found(memory, ranges, pattern, i + 1);
            },
        }
    }
}

/// What is found, counted and listed in ranges of a memory.
pub proof fn lemma_ranges(
    memory: MemoryRegion<'_>,
    ranges: Seq<(usize, usize)>,
    pattern: Seq<Option<u8>>,
)
    requires
        is_mapped(memory),
    ensures
        is_found(
            places_of(memory, ranges),
            pattern,
            hits::first_hit(memory, ranges, pattern, 0),
        ),
        is_counted(
            places_of(memory, ranges),
            pattern,
            hits::clamped(hits::hit_count(memory, ranges, pattern, 0)),
        ),
        (forall|k: int|
            0 <= k < ranges.len() ==> has_literal(pattern) || (#[trigger] ranges[k]).0
                + ranges[k].1 <= usize::MAX + 1) ==> is_listed(
            places_of(memory, ranges),
            pattern,
            hits::hits(memory, ranges, pattern, 0),
        ),
{
    let places = places_of(memory, ranges);
    let lists = range_lists(memory, ranges, pattern);
    if pattern.len() > 0 {
        lemma_ranges_found(memory, ranges, pattern, 0);
    }
    assert forall|k: int| 0 <= k < places.len() implies covers(
        #[trigger] places[k],
        pattern,
        lists[k],
    ) by {
        lemma_range(memory, ranges[k], pattern);
    }
    assert(covers_all(places, pattern, lists));
    assert(lists.skip(0) =~= lists);
    lemma_ranges_counted(memory, ranges, pattern, 0);
    if forall|k: int|
        0 <= k < ranges.len() ==> has_literal(pattern) || (#[trigger] ranges[k]).0 + ranges[k].1
            <= usize::MAX + 1 {
        lemma_ranges_listed(memory, ranges, pattern, 0);
    }
}

/// The places of regions, each of its own.
pub open spec fn region_places(regions: Seq<MemoryRegion<'_>>) -> Seq<Place> {
    Seq::new(regions.len(), |k: int| region_place(regions[k]))
}

/// The addresses of the counted matches in each region.
spec fn region_lists(regions: Seq<MemoryRegion<'_>>, pattern: Seq<Option<u8>>) -> Seq<Seq<int>> {
    Seq::new(
        regions.len(),
        |k: int|
            {
                let (start, size) = hits::whole(regions[k]);
                addresses(
                    start as int,
                    matching::match_offsets(
                        regions[k].window(start as int, size as int),
                        pattern,
                        0,
                    ),
                )
            },
    )
}

/// The count and the hits in regions are those of their addresses.
proof fn lemma_regions_listed(
    regions: Seq<MemoryRegion<'_>>,
    pattern: Seq<Option<u8>>,
    i: int,
)
    requires
        0 <= i <= regions.len(),
        forall|k: int| 0 <= k < regions.len() ==> hits::is_addressable(#[trigger] regions[k]),
    ensures
        hits::region_hit_count(regions, pattern, i) == region_lists(regions, pattern).skip(
            i,
        ).flatten().len(),
        hits::region_hits(regions, pattern, i).map_values(|a: usize| a as int) == region_lists(
            regions,
            pattern,
        ).skip(i).flatten(),
    decreases regions.len() - i,
{
    let lists = region_lists(regions, pattern);
    let word = |a: usize| a as int;
    if i < regions.len() {
        lemma_regions_listed(regions, pattern, i + 1);
        assert(lists.skip(i).drop_first() =~= lists.skip(i + 1));
        assert(lists.skip(i).first() == lists[i]);
        assert(hits::is_addressable(regions[i]));
        let here = hits::range_hits(regions[i], hits::whole(regions[i]), pattern, 0);
        let rest = hits::region_hits(regions, pattern, i + 1);
        lemma_range_listed(regions[i], hits::whole(regions[i]), pattern);
        assert(hits::region_hits(regions, pattern, i).map_values(word) =~= here.map_values(word)
            + rest.map_values(word));
    } else {
        assert(hits::region_hits(regions, pattern, i).map_values(word) =~= Seq::<int>::empty());
    }
}

/// What is found in regions is the first occurrence.
proof fn lemma_regions_found(regions: Seq<MemoryRegion<'_>>, pattern: Seq<Option<u8>>, i: int)
    requires
        0 <= i <= regions.len(),
        pattern.len() > 0,
        forall|k: int| 0 <= k < regions.len() ==> hits::is_addressable(#[trigger] regions[k]),
        forall|j: int| 0 <= j < i ==> none_at_all(#[trigger] region_places(regions)[j], pattern),
    ensures
        is_found(
            region_places(regions),
            pattern,
            hits::region_first_hit(regions, pattern, i),
        ),
    decreases regions.len() - i,
{
    let places = region_places(regions);
    if i < regions.len() {
        assert(hits::is_addressable(regions[i]));
        let range = hits::whole(regions[i]);
        lemma_range(regions[i], range, pattern);
        assert(place_of(regions[i], range) == places[i]);
        let hay = regions[i].window(range.0 as int, range.1 as int);
        match hits::address(range.0, matching::first_match(hay, pattern, 0)) {
            Some(addr) => {
                assert(occurs(places[i], pattern, addr as int));
                assert(none_before(places[i], pattern, addr as int));
            },
            None => {
                assert(none_at_all(places[i], pattern));
                lemma_regions_found(regions, pattern, i + 1);
            },
        }
    }
}

/// Scanning regions finds the first occurrence in them, counts the occurrences without overlap and
/// lists them.
pub proof fn regions_are_scanned(
    regions: &[MemoryRegion<'_>],
    pattern: &[Option<u8>],
    found: Option<usize>,
    count: usize,
    it: Matches<'_>,
    listed: Vec<usize>,
    listed_count: usize,
)
    requires
        forall|k: int| 0 <= k < regions@.len() ==> is_mapped(#[trigger] regions@[k]),
        call_ensures(find_in_regions, (regions, pattern), found),
        call_ensures(count_in_regions, (regions, pattern), count),
        call_ensures(iter_in_regions, (regions, pattern), it),
        call_ensures(Matches::collect, (it,), listed),
        call_ensures(Matches::count, (it,), listed_count),
    ensures
        is_found(region_places(regions@), pattern@, found),
        is_counted(region_places(regions@), pattern@, count),
        is_listed(region_places(regions@), pattern@, listed@),
        is_counted(region_places(regions@), pattern@, listed_count),
{
    assert forall|k: int| 0 <= k < regions@.len() implies hits::is_addressable(
        #[trigger] regions@[k],
    ) by {
        assert(is_mapped(regions@[k]));
    }
    let places = region_places(regions@);
    let lists = region_lists(regions@, pattern@);
    if pattern@.len() > 0 {
        lemma_regions_found(regions@, pattern@, 0);
    }
    assert forall|k: int| 0 <= k < places.len() implies covers(
        #[trigger] places[k],
        pattern@,
        lists[k],
    ) by {
        assert(hits::is_addressable(regions@[k]));
        lemma_range(regions@[k], hits::whole(regions@[k]), pattern@);
        assert(place_of(regions@[k], hits::whole(regions@[k])) == places[k]);
    }
    assert(covers_all(places, pattern@, lists));
    assert(lists.skip(0) =~= lists);
    lemma_regions_listed(regions@, pattern@, 0);
    assert(listed@.map_values(|a: usize| a as int).len() == listed@.len());
}

/// The matches in a slice are the occurrences in it.
proof fn lemma_slice(base: usize, haystack: Seq<u8>, pattern: Seq<Option<u8>>)
    requires
        base + haystack.len() <= usize::MAX,
    ensures
        is_found(
            seq![slice_place(base, haystack)],
            pattern,
            hits::slice_first_hit(base, haystack, pattern),
        ),
        covers(
            slice_place(base, haystack),
            pattern,
            addresses(
                base as int,
                matching::match_offsets(matching::readable_bytes(haystack), pattern, 0),
            ),
        ),
        hits::slice_hits(base, haystack, pattern, 0).map_values(|a: usize| a as int) == addresses(
            base as int,
            matching::match_offsets(matching::readable_bytes(haystack), pattern, 0),
        ),
{
    let hay = matching::readable_bytes(haystack);
    let place = slice_place(base, haystack);
    let offs = matching::match_offsets(hay, pattern, 0);
    let addrs = addresses(base as int, offs);
    assert forall|a: int| #[trigger] occurs(place, pattern, a) <==> matching::matches_at(
        hay,
        pattern,
        a - base,
    ) by {
        let off = a - base;
        if occurs(place, pattern, a) {
            assert forall|i: int| 0 <= i < pattern.len() implies matching::slot_accepts(
                #[trigger] pattern[i],
                hay[off + i],
            ) by {}
        }
        if matching::matches_at(hay, pattern, off) {
            assert forall|i: int|
                0 <= i < pattern.len() && (#[trigger] pattern[i]) is Some implies {
                &&& 0 <= a + i - place.base < place.bytes.len()
                &&& place.bytes[a + i - place.base] == pattern[i]->0
            } by {
                assert(matching::slot_accepts(pattern[i], hay[off + i]));
            }
        }
    }
    matching::first_match_is_leftmost(hay, pattern, 0);
    let places = seq![place];
    assert(places[0] == place);
    if let Some(off) = matching::first_match(hay, pattern, 0) {
        assert(occurs(places[0], pattern, base + off));
        assert(none_before(places[0], pattern, base + off));
        assert(is_first(places, pattern, base + off));
    }
    if pattern.len() > 0 {
        matching::match_offsets_do_not_overlap(hay, pattern, 0);
        assert forall|k: int| 0 <= k < addrs.len() implies occurs(
            place,
            pattern,
            #[trigger] addrs[k],
        ) by {
            assert(matching::matches_at(hay, pattern, offs[k]));
        }
        assert forall|a: int| #[trigger] occurs(place, pattern, a) implies begins_inside(
            addrs,
            pattern.len() as int,
            a,
        ) by {
            reveal(begins_inside);
            let off = a - base;
            matching::every_match_begins_inside_a_counted_one(hay, pattern, 0, off);
            let k = choose|k: int|
                0 <= k < offs.len() && #[trigger] offs[k] <= off < offs[k] + pattern.len();
            assert(addrs[k] <= a < addrs[k] + pattern.len());
        }
        let found = hits::slice_hits(base, haystack, pattern, 0);
        let word = |a: usize| a as int;
        assert forall|k: int| 0 <= k < found.len() implies #[trigger] found.map_values(word)[k]
            == addrs[k] by {
            assert(matching::matches_at(hay, pattern, offs[k]));
        }
        assert(found.map_values(word) =~= addrs);
    } else {
        assert(hits::slice_hits(base, haystack, pattern, 0).map_values(|a: usize| a as int)
            =~= addrs);
    }
}

/// Scanning a slice that lies at `base` finds the leftmost occurrence in it, counts the
/// occurrences without overlap and lists them.
pub proof fn a_slice_is_scanned<'a>(
    base: usize,
    haystack: &'a [u8],
    pattern: &'a [Option<u8>],
    found: Option<usize>,
    count: usize,
    it: SliceMatches<'a>,
    listed: Vec<usize>,
    listed_count: usize,
)
    requires
        base + haystack@.len() <= usize::MAX,
        call_ensures(find_in_slice_at, (base, haystack, pattern), found),
        call_ensures(count_in_slice, (haystack, pattern), count),
        call_ensures(iter_in_slice_at, (base, haystack, pattern), it),
        call_ensures(SliceMatches::collect, (it,), listed),
        call_ensures(SliceMatches::count, (it,), listed_count),
    ensures
        is_found(seq![slice_place(base, haystack@)], pattern@, found),
        covers(
            slice_place(base, haystack@),
            pattern@,
            listed@.map_values(|a: usize| a as int),
        ),
        count == listed@.len(),
        listed_count == listed@.len(),
{
    lemma_slice(base, haystack@, pattern@);
    assert(listed@.map_values(|a: usize| a as int).len() == listed@.len());
}

/// A copy of an iterator hands out what the iterator would.
pub proof fn a_copy_goes_on_alike<'a>(
    it: (SliceMatches<'a>, Matches<'a>),
    copy: (SliceMatches<'a>, Matches<'a>),
    listed: (Vec<usize>, Vec<usize>),
    copy_listed: (Vec<usize>, Vec<usize>),
)
    requires
        call_ensures(SliceMatches::clone, (&it.0,), copy.0),
        call_ensures(Matches::clone, (&it.1,), copy.1),
        call_ensures(SliceMatches::collect, (it.0,), listed.0),
        call_ensures(SliceMatches::collect, (copy.0,), copy_listed.0),
        call_ensures(Matches::collect, (it.1,), listed.1),
        call_ensures(Matches::collect, (copy.1,), copy_listed.1),
    ensures
        copy_listed.0@ == listed.0@,
        copy_listed.1@ == listed.1@,
{
}

/// Where a slice lies is what its own address says: what is found and listed in it are addresses
/// behind that.
pub proof fn a_slice_is_scanned_where_it_lies<'a>(
    haystack: &'a [u8],
    pattern: &'a [Option<u8>],
    found: Option<usize>,
    it: SliceMatches<'a>,
    listed: Vec<usize>,
)
    requires
        call_ensures(find_in_slice, (haystack, pattern), found),
        call_ensures(iter_in_slice, (haystack, pattern), it),
        call_ensures(SliceMatches::collect, (it,), listed),
    ensures
        exists|base: usize| #[trigger]
            scan::is_address_of(haystack, base) && is_found(
                seq![slice_place(base, haystack@)],
                pattern@,
                found,
            ),
        exists|base: usize| #[trigger]
            scan::is_address_of(haystack, base) && covers(
                slice_place(base, haystack@),
                pattern@,
                listed@.map_values(|a: usize| a as int),
            ),
{
    let base = choose|base: usize|
        {
            &&& scan::is_address_of(haystack, base)
            &&& base + haystack@.len() <= usize::MAX
            &&& found == #[trigger] hits::slice_first_hit(base, haystack@, pattern@)
        };
    lemma_slice(base, haystack@, pattern@);
    lemma_slice(it.base(), haystack@, pattern@);
    assert(scan::is_address_of(haystack, it.base()));
}

} // verus!
