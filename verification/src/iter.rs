//! Iteration over the non-overlapping matches of a pattern.
use vstd::prelude::*;

use crate::hits;
use crate::matching;
use crate::memory::MemoryRegion;
use crate::pattern::WildcardPattern;
use crate::pe::{exec_sections, find_section, text_section_bounds};
use crate::scan;
use crate::scan::{scan_range_from, scan_slice_from, slice_address};

verus! {

/// Iterator over the addresses of the non-overlapping matches in a slice. Made by
/// [`iter_in_slice`].
///
/// Behind a match at the offset `i` the search goes on at `i + pattern.len()`. An empty pattern
/// has no matches.
#[derive(Debug)]
pub struct SliceMatches<'a> {
    base: usize,
    haystack: &'a [u8],
    pattern: WildcardPattern<'a>,
    cursor: usize,
}

impl<'a> SliceMatches<'a> {
    /// The slice ends inside the address space.
    #[verifier::type_invariant]
    spec fn ends_in_address_space(self) -> bool {
        self.base + self.haystack@.len() <= usize::MAX
    }

    /// Address of the searched slice.
    pub closed spec fn base(self) -> usize {
        self.base
    }

    /// The addresses not yet handed out.
    pub closed spec fn remaining(self) -> Seq<usize> {
        hits::slice_hits(self.base, self.haystack@, self.pattern@, self.cursor as int)
    }

    /// Hand out the next address.
    pub fn next(&mut self) -> (r: Option<usize>)
        ensures
            final(self).base() == old(self).base(),
            match r {
                Some(addr) => {
                    &&& old(self).remaining().len() > 0
                    &&& addr == old(self).remaining()[0]
                    &&& final(self).remaining() == old(self).remaining().drop_first()
                },
                None => {
                    &&& old(self).remaining().len() == 0
                    &&& final(self).remaining().len() == 0
                },
            },
    {
        proof {
            use_type_invariant(&*self);
        }
        let pat_len: usize = self.pattern.len();
        if pat_len == 0 {
            return None;
        }
        let ghost hay = matching::readable_bytes(self.haystack@);
        proof {
            matching::first_match_is_leftmost(hay, self.pattern@, self.cursor as int);
        }
        match scan_slice_from(self.haystack, self.cursor, self.pattern) {
            Some(off) => {
                self.cursor = off + pat_len;
                assert(self.remaining() =~= old(self).remaining().drop_first());
                Some(self.base + off)
            },
            None => None,
        }
    }

    /// Collect the addresses not yet handed out.
    pub fn collect(self) -> (r: Vec<usize>)
        ensures
            r@ == self.remaining(),
    {
        let mut rest: SliceMatches<'a> = self;
        let mut found: Vec<usize> = Vec::new();
        loop
            invariant_except_break
                found@ + rest.remaining() == self.remaining(),
            ensures
                found@ == self.remaining(),
            decreases rest.remaining().len(),
        {
            let ghost before = rest.remaining();
            match rest.next() {
                Some(addr) => {
                    found.push(addr);
                    assert(found@ + rest.remaining() =~= self.remaining()) by {
                        assert(before =~= seq![addr] + rest.remaining());
                    }
                },
                None => {
                    assert(found@ =~= self.remaining());
                    break;
                },
            }
        }
        found
    }

    /// Count the addresses not yet handed out.
    pub fn count(self) -> (r: usize)
        ensures
            r == self.remaining().len(),
    {
        let ghost all = self.remaining().len();
        proof {
            use_type_invariant(&self);
            let hay = matching::readable_bytes(self.haystack@);
            if self.cursor <= hay.len() {
                matching::match_count_is_bounded(hay, self.pattern@, self.cursor as int);
            }
        }
        let mut rest: SliceMatches<'a> = self;
        let mut total: usize = 0;
        loop
            invariant_except_break
                total + rest.remaining().len() == all,
                all <= usize::MAX,
            ensures
                total == all,
            decreases rest.remaining().len(),
        {
            match rest.next() {
                Some(_) => {
                    total = total + 1;
                },
                None => {
                    break;
                },
            }
        }
        total
    }
}

impl<'a> Clone for SliceMatches<'a> {
    /// An iterator of its own over the same addresses.
    fn clone(&self) -> (r: Self)
        ensures
            r == *self,
    {
        proof {
            use_type_invariant(self);
        }
        SliceMatches {
            base: self.base,
            haystack: self.haystack,
            pattern: self.pattern,
            cursor: self.cursor,
        }
    }
}

/// Iterate over the non-overlapping occurrences of `pattern` in `haystack`, whose first byte has
/// the address `base`.
pub fn iter_in_slice_at<'a>(base: usize, haystack: &'a [u8], pattern: WildcardPattern<'a>) -> (r:
    SliceMatches<'a>)
    requires
        base + haystack@.len() <= usize::MAX,
    ensures
        r.base() == base,
        r.remaining() == hits::slice_hits(base, haystack@, pattern@, 0),
{
    SliceMatches { base, haystack, pattern, cursor: 0 }
}

/// Iterate over the non-overlapping occurrences of `pattern` in `haystack`. The addresses handed
/// out are absolute, as those of [`crate::find_in_slice`] are.
pub fn iter_in_slice<'a>(haystack: &'a [u8], pattern: WildcardPattern<'a>) -> (r: SliceMatches<'a>)
    ensures
        scan::is_address_of(haystack, r.base()),
        r.base() + haystack@.len() <= usize::MAX,
        r.remaining() == hits::slice_hits(r.base(), haystack@, pattern@, 0),
{
    let base: usize = slice_address(haystack);
    proof {
        scan::only_the_slice_tells_its_address(haystack, base);
    }
    iter_in_slice_at(base, haystack, pattern)
}

/// Addresses of the non-overlapping matches of `pattern`, from the index `i` on, in ranges of which
/// each lies in a memory of its own.
spec fn placed_hits(
    ranges: Seq<(MemoryRegion<'_>, usize, usize)>,
    pattern: Seq<Option<u8>>,
    i: int,
) -> Seq<usize>
    decreases ranges.len() - i,
{
    if i >= ranges.len() {
        Seq::empty()
    } else {
        hits::range_hits(ranges[i].0, (ranges[i].1, ranges[i].2), pattern, 0) + placed_hits(
            ranges,
            pattern,
            i + 1,
        )
    }
}

/// An empty pattern has no matches.
proof fn lemma_placed_empty(
    ranges: Seq<(MemoryRegion<'_>, usize, usize)>,
    pattern: Seq<Option<u8>>,
    i: int,
)
    requires
        pattern.len() == 0,
    ensures
        placed_hits(ranges, pattern, i) == Seq::<usize>::empty(),
    decreases ranges.len() - i,
{
    if i < ranges.len() {
        lemma_placed_empty(ranges, pattern, i + 1);
    }
}

/// Ranges that all lie in the same memory.
proof fn lemma_placed_in_one_memory(
    placed: Seq<(MemoryRegion<'_>, usize, usize)>,
    memory: MemoryRegion<'_>,
    ranges: Seq<(usize, usize)>,
    pattern: Seq<Option<u8>>,
    i: int,
)
    requires
        0 <= i,
        placed.len() == ranges.len(),
        forall|k: int|
            0 <= k < placed.len() ==> #[trigger] placed[k] == (memory, ranges[k].0, ranges[k].1),
    ensures
        placed_hits(placed, pattern, i) == hits::hits(memory, ranges, pattern, i),
    decreases ranges.len() - i,
{
    if i < ranges.len() {
        assert(placed[i] == (memory, ranges[i].0, ranges[i].1));
        lemma_placed_in_one_memory(placed, memory, ranges, pattern, i + 1);
    }
}

/// Ranges that are regions of their own.
proof fn lemma_placed_regions(
    placed: Seq<(MemoryRegion<'_>, usize, usize)>,
    regions: Seq<MemoryRegion<'_>>,
    pattern: Seq<Option<u8>>,
    i: int,
)
    requires
        0 <= i,
        placed.len() == regions.len(),
        forall|k: int|
            0 <= k < placed.len() ==> #[trigger] placed[k] == (
                regions[k],
                hits::whole(regions[k]).0,
                hits::whole(regions[k]).1,
            ),
    ensures
        placed_hits(placed, pattern, i) == hits::region_hits(regions, pattern, i),
    decreases regions.len() - i,
{
    if i < regions.len() {
        assert(placed[i] == (regions[i], hits::whole(regions[i]).0, hits::whole(regions[i]).1));
        lemma_placed_regions(placed, regions, pattern, i + 1);
    }
}

/// Iterator over the addresses of the non-overlapping matches in the sections of a module. Made
/// by [`iter_in_text`], [`iter_in_exec_sections`], [`iter_in_section`] and [`iter_in_regions`].
///
/// When a section is exhausted the next one follows.
#[derive(Debug)]
pub struct Matches<'a> {
    ranges: Vec<(MemoryRegion<'a>, usize, usize)>,
    range_idx: usize,
    cursor: usize,
    pattern: WildcardPattern<'a>,
}

impl<'a> Matches<'a> {
    /// The addresses not yet handed out.
    pub closed spec fn remaining(self) -> Seq<usize> {
        if self.range_idx < self.ranges@.len() {
            let (memory, start, size) = self.ranges@[self.range_idx as int];
            hits::range_hits(memory, (start, size), self.pattern@, self.cursor as int)
                + placed_hits(self.ranges@, self.pattern@, self.range_idx + 1)
        } else {
            Seq::empty()
        }
    }

    /// Hand out the next address.
    pub fn next(&mut self) -> (r: Option<usize>)
        ensures
            match r {
                Some(addr) => {
                    &&& old(self).remaining().len() > 0
                    &&& addr == old(self).remaining()[0]
                    &&& final(self).remaining() == old(self).remaining().drop_first()
                },
                None => {
                    &&& old(self).remaining().len() == 0
                    &&& final(self).remaining().len() == 0
                },
            },
    {
        let pat_len: usize = self.pattern.len();
        if pat_len == 0 {
            proof {
                lemma_placed_empty(self.ranges@, self.pattern@, self.range_idx + 1);
                assert(self.remaining() =~= Seq::empty());
            }
            return None;
        }
        while self.range_idx < self.ranges.len()
            invariant
                pat_len > 0,
                pat_len == self.pattern@.len(),
                self.remaining() == old(self).remaining(),
            decreases self.ranges@.len() - self.range_idx,
        {
            let (memory, start, size) = self.ranges[self.range_idx];
            let ghost hay = memory.window(start as int, size as int);
            proof {
                matching::first_match_is_leftmost(hay, self.pattern@, self.cursor as int);
            }
            let found: Option<usize> = scan_range_from(
                &memory,
                start,
                size,
                self.cursor,
                self.pattern,
            );
            if let Some(addr) = found {
                let off: usize = addr - start;
                self.cursor = off + pat_len;
                assert(self.remaining() =~= old(self).remaining().drop_first());
                return Some(addr);
            }
            self.range_idx = self.range_idx + 1;
            self.cursor = 0;
            assert(self.remaining() =~= old(self).remaining());
        }
        None
    }

    /// Collect the addresses not yet handed out.
    pub fn collect(self) -> (r: Vec<usize>)
        ensures
            r@ == self.remaining(),
    {
        let ghost all = self.remaining();
        let mut rest: Matches<'a> = self;
        let mut found: Vec<usize> = Vec::new();
        loop
            invariant_except_break
                found@ + rest.remaining() == all,
            ensures
                found@ == all,
            decreases rest.remaining().len(),
        {
            let ghost before = rest.remaining();
            match rest.next() {
                Some(addr) => {
                    found.push(addr);
                    assert(found@ + rest.remaining() =~= all) by {
                        assert(before =~= seq![addr] + rest.remaining());
                    }
                },
                None => {
                    assert(found@ =~= all);
                    break;
                },
            }
        }
        found
    }

    /// Count the addresses not yet handed out.
    pub fn count(self) -> (r: usize)
        ensures
            r == hits::clamped(self.remaining().len()),
    {
        let ghost all = self.remaining().len();
        let mut rest: Matches<'a> = self;
        let mut total: usize = 0;
        loop
            invariant_except_break
                hits::clamped(all) == hits::clamped(total as nat + rest.remaining().len()),
            ensures
                total == hits::clamped(all),
            decreases rest.remaining().len(),
        {
            match rest.next() {
                Some(_) => {
                    total = total.saturating_add(1);
                },
                None => {
                    break;
                },
            }
        }
        total
    }
}

impl<'a> Clone for Matches<'a> {
    /// An iterator of its own over the same addresses.
    fn clone(&self) -> (r: Self)
        ensures
            r.remaining() == self.remaining(),
    {
        let mut ranges: Vec<(MemoryRegion<'a>, usize, usize)> = Vec::with_capacity(
            self.ranges.len(),
        );
        let mut i: usize = 0;
        while i < self.ranges.len()
            invariant
                i <= self.ranges@.len(),
                ranges@ == self.ranges@.take(i as int),
            decreases self.ranges@.len() - i,
        {
            ranges.push(self.ranges[i]);
            i = i + 1;
        }
        assert(ranges@ =~= self.ranges@);
        Matches {
            ranges,
            range_idx: self.range_idx,
            cursor: self.cursor,
            pattern: self.pattern,
        }
    }
}

/// Iterate over the non-overlapping occurrences of `pattern` in `ranges`.
fn iter_in_ranges<'a>(
    memory: &MemoryRegion<'a>,
    ranges: Vec<(usize, usize)>,
    pattern: WildcardPattern<'a>,
) -> (r: Matches<'a>)
    ensures
        r.remaining() == hits::hits(*memory, ranges@, pattern@, 0),
{
    let mut placed: Vec<(MemoryRegion<'a>, usize, usize)> = Vec::with_capacity(ranges.len());
    let mut i: usize = 0;
    while i < ranges.len()
        invariant
            i <= ranges@.len(),
            placed@.len() == i,
            forall|k: int|
                0 <= k < i ==> #[trigger] placed@[k] == (*memory, ranges@[k].0, ranges@[k].1),
        decreases ranges@.len() - i,
    {
        let (start, size) = ranges[i];
        placed.push((*memory, start, size));
        i = i + 1;
    }
    proof {
        lemma_placed_in_one_memory(placed@, *memory, ranges@, pattern@, 0);
    }
    Matches { ranges: placed, range_idx: 0, cursor: 0, pattern }
}

/// Iterate over the non-overlapping occurrences of `pattern` in `regions`, one region after the
/// other.
pub fn iter_in_regions<'a>(regions: &[MemoryRegion<'a>], pattern: WildcardPattern<'a>) -> (r:
    Matches<'a>)
    ensures
        r.remaining() == hits::region_hits(regions@, pattern@, 0),
{
    let mut placed: Vec<(MemoryRegion<'a>, usize, usize)> = Vec::with_capacity(regions.len());
    let mut i: usize = 0;
    while i < regions.len()
        invariant
            i <= regions@.len(),
            placed@.len() == i,
            forall|k: int|
                0 <= k < i ==> #[trigger] placed@[k] == (
                    regions@[k],
                    hits::whole(regions@[k]).0,
                    hits::whole(regions@[k]).1,
                ),
        decreases regions@.len() - i,
    {
        let region: MemoryRegion<'a> = regions[i];
        placed.push((region, region.base_address(), region.as_bytes().len()));
        i = i + 1;
    }
    proof {
        lemma_placed_regions(placed@, regions@, pattern@, 0);
    }
    Matches { ranges: placed, range_idx: 0, cursor: 0, pattern }
}

/// Iterate over the non-overlapping occurrences of `pattern` in the section named `.text` of the
/// module loaded at `module_base`. There are none if the pattern is empty, the headers are
/// malformed, or there is no section named `.text`.
pub fn iter_in_text<'a>(
    memory: &MemoryRegion<'a>,
    module_base: usize,
    pattern: WildcardPattern<'a>,
) -> (r: Matches<'a>)
    ensures
        r.remaining() == hits::hits(*memory, hits::text_ranges(*memory, module_base), pattern@, 0),
{
    let mut ranges: Vec<(usize, usize)> = Vec::new();
    if module_base != 0 && !pattern.is_empty() {
        if let Some(range) = text_section_bounds(memory, module_base) {
            ranges.push(range);
        }
    }
    proof {
        if pattern@.len() == 0 {
            hits::an_empty_pattern_has_no_hits(*memory, ranges@, pattern@, 0);
            hits::an_empty_pattern_has_no_hits(
                *memory,
                hits::text_ranges(*memory, module_base),
                pattern@,
                0,
            );
        } else {
            assert(ranges@ =~= hits::text_ranges(*memory, module_base));
        }
    }
    iter_in_ranges(memory, ranges, pattern)
}

/// Iterate over the non-overlapping occurrences of `pattern` in all executable sections of the
/// module loaded at `module_base`, in the order of the section table.
pub fn iter_in_exec_sections<'a>(
    memory: &MemoryRegion<'a>,
    module_base: usize,
    pattern: WildcardPattern<'a>,
) -> (r: Matches<'a>)
    ensures
        r.remaining() == hits::hits(*memory, hits::exec_ranges(*memory, module_base), pattern@, 0),
{
    let mut ranges: Vec<(usize, usize)> = Vec::new();
    if module_base != 0 && !pattern.is_empty() {
        if let Some(found) = exec_sections(memory, module_base) {
            ranges = found;
        }
    }
    proof {
        if pattern@.len() == 0 {
            hits::an_empty_pattern_has_no_hits(*memory, ranges@, pattern@, 0);
            hits::an_empty_pattern_has_no_hits(
                *memory,
                hits::exec_ranges(*memory, module_base),
                pattern@,
                0,
            );
        } else {
            assert(ranges@ =~= hits::exec_ranges(*memory, module_base));
        }
    }
    iter_in_ranges(memory, ranges, pattern)
}

/// Iterate over the non-overlapping occurrences of `pattern` in the first section whose name
/// begins with `section_name`.
pub fn iter_in_section<'a>(
    memory: &MemoryRegion<'a>,
    module_base: usize,
    section_name: &[u8],
    pattern: WildcardPattern<'a>,
) -> (r: Matches<'a>)
    ensures
        r.remaining() == hits::hits(
            *memory,
            hits::named_ranges(*memory, module_base, section_name@),
            pattern@,
            0,
        ),
{
    let mut ranges: Vec<(usize, usize)> = Vec::new();
    if module_base != 0 && !pattern.is_empty() {
        if let Some(section) = find_section(memory, module_base, section_name) {
            ranges.push((section.virtual_address, section.virtual_size));
        }
    }
    proof {
        let named = hits::named_ranges(*memory, module_base, section_name@);
        if pattern@.len() == 0 {
            hits::an_empty_pattern_has_no_hits(*memory, ranges@, pattern@, 0);
            hits::an_empty_pattern_has_no_hits(*memory, named, pattern@, 0);
        } else {
            assert(ranges@ =~= named);
        }
    }
    iter_in_ranges(memory, ranges, pattern)
}

} // verus!
