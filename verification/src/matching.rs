//! What a match is: the mathematical model of pattern matching that the scanners compute.
//!
//! The scanned bytes are a sequence of `Option<u8>`: `Some(b)` is the byte `b`, `None` an address
//! that cannot be read. A pattern is a sequence of slots, where `Some(b)` accepts the byte `b`
//! alone and `None`, the wildcard, accepts anything.
use vstd::prelude::*;

verus! {

/// The bytes of a slice as scanned bytes: all of them readable.
pub open spec fn readable_bytes(bytes: Seq<u8>) -> Seq<Option<u8>> {
    Seq::new(bytes.len(), |k: int| Some(bytes[k]))
}

/// A pattern slot accepts a scanned byte.
pub open spec fn slot_accepts(slot: Option<u8>, byte: Option<u8>) -> bool {
    slot is None || slot == byte
}

/// `pattern` lies inside `hay` at `off`, and each slot accepts the byte under it.
pub open spec fn matches_at(
    hay: Seq<Option<u8>>,
    pattern: Seq<Option<u8>>,
    off: int,
) -> bool {
    &&& 0 <= off
    &&& off + pattern.len() <= hay.len()
    &&& forall|i: int| 0 <= i < pattern.len() ==> slot_accepts(#[trigger] pattern[i], hay[off + i])
}

/// The leftmost offset, from `from` on, at which `pattern` matches.
pub open spec fn first_match(
    hay: Seq<Option<u8>>,
    pattern: Seq<Option<u8>>,
    from: int,
) -> Option<int>
    decreases hay.len() - from + 1,
{
    if from + pattern.len() > hay.len() {
        None
    } else if matches_at(hay, pattern, from) {
        Some(from)
    } else {
        first_match(hay, pattern, from + 1)
    }
}

/// The offsets of the non-overlapping matches from `from` on: each is the leftmost match that
/// begins at or after the end of the one before. An empty pattern has none.
pub open spec fn match_offsets(
    hay: Seq<Option<u8>>,
    pattern: Seq<Option<u8>>,
    from: int,
) -> Seq<int>
    decreases hay.len() - from + 1,
{
    if pattern.len() == 0 {
        Seq::empty()
    } else {
        proof {
            first_match_is_leftmost(hay, pattern, from);
        }
        match first_match(hay, pattern, from) {
            Some(off) => seq![off] + match_offsets(hay, pattern, off + pattern.len()),
            None => Seq::empty(),
        }
    }
}

/// An offset as the integer that it is.
pub open spec fn offset(r: Option<usize>) -> Option<int> {
    match r {
        Some(off) => Some(off as int),
        None => None,
    }
}

/// Every slot is a wildcard.
pub open spec fn all_wildcards(pattern: Seq<Option<u8>>) -> bool {
    forall|i: int| 0 <= i < pattern.len() ==> #[trigger] pattern[i] is None
}

/// The first match is a match, and no offset between `from` and it is one; there is no first
/// match only where no offset from `from` on is a match.
pub proof fn first_match_is_leftmost(
    hay: Seq<Option<u8>>,
    pattern: Seq<Option<u8>>,
    from: int,
)
    ensures
        match first_match(hay, pattern, from) {
            Some(off) => {
                &&& from <= off
                &&& matches_at(hay, pattern, off)
                &&& forall|j: int| from <= j < off ==> !matches_at(hay, pattern, j)
            },
            None => forall|j: int| from <= j ==> !matches_at(hay, pattern, j),
        },
    decreases hay.len() - from + 1,
{
    if from + pattern.len() <= hay.len() && !matches_at(hay, pattern, from) {
        first_match_is_leftmost(hay, pattern, from + 1);
    }
}

/// Offsets that hold no match can be skipped.
pub proof fn lemma_skip_to(
    hay: Seq<Option<u8>>,
    pattern: Seq<Option<u8>>,
    from: int,
    to: int,
)
    requires
        from <= to,
        forall|j: int| from <= j < to ==> !matches_at(hay, pattern, j),
    ensures
        first_match(hay, pattern, from) == first_match(hay, pattern, to),
        match_offsets(hay, pattern, from) == match_offsets(hay, pattern, to),
    decreases to - from,
{
    if from < to {
        assert(!matches_at(hay, pattern, from));
        if from + pattern.len() <= hay.len() {
            lemma_skip_to(hay, pattern, from + 1, to);
        }
    }
}

/// A pattern of wildcards matches wherever it fits, so its matches tile the bytes from `from` on.
pub proof fn all_wildcards_tile(
    hay: Seq<Option<u8>>,
    pattern: Seq<Option<u8>>,
    from: int,
)
    requires
        all_wildcards(pattern),
        pattern.len() > 0,
        0 <= from <= hay.len(),
    ensures
        match_offsets(hay, pattern, from).len() == (hay.len() - from) / (pattern.len() as int),
    decreases hay.len() - from,
{
    let n = pattern.len() as int;
    let rest = hay.len() - from;
    if from + pattern.len() <= hay.len() {
        assert(matches_at(hay, pattern, from));
        all_wildcards_tile(hay, pattern, from + n);
        assert(rest / n == (rest - n) / n + 1) by (nonlinear_arith)
            requires
                n > 0,
        ;
    } else {
        assert(rest / n == 0) by (nonlinear_arith)
            requires
                0 <= rest < n,
        ;
    }
}

/// The offsets of `[from, to)` can be skipped when none of them has `byte` under the slot `at`
/// that asks for it.
pub proof fn lemma_skip_without_anchor(
    hay: Seq<Option<u8>>,
    pattern: Seq<Option<u8>>,
    at: int,
    byte: u8,
    from: int,
    to: int,
)
    requires
        0 <= at < pattern.len(),
        pattern[at] == Some(byte),
        from <= to,
        forall|k: int| from + at <= k < to + at && 0 <= k < hay.len() ==> hay[k] != Some(byte),
    ensures
        first_match(hay, pattern, from) == first_match(hay, pattern, to),
        match_offsets(hay, pattern, from) == match_offsets(hay, pattern, to),
{
    assert forall|j: int| from <= j < to implies !matches_at(hay, pattern, j) by {
        if matches_at(hay, pattern, j) {
            assert(slot_accepts(pattern[at], hay[j + at]));
        }
    }
    lemma_skip_to(hay, pattern, from, to);
}

/// A match inside a window is a match of the bytes under it.
pub proof fn lemma_match_in_window(
    hay: Seq<Option<u8>>,
    under: Seq<Option<u8>>,
    pattern: Seq<Option<u8>>,
    off: int,
)
    requires
        0 <= off,
        off + pattern.len() <= hay.len(),
        under.len() == pattern.len(),
        forall|i: int| 0 <= i < under.len() ==> under[i] == hay[off + i],
    ensures
        matches_at(under, pattern, 0) == matches_at(hay, pattern, off),
{
    if matches_at(under, pattern, 0) {
        assert forall|i: int| 0 <= i < pattern.len() implies slot_accepts(
            #[trigger] pattern[i],
            hay[off + i],
        ) by {
            assert(slot_accepts(pattern[i], under[0 + i]));
        }
    }
    if matches_at(hay, pattern, off) {
        assert forall|i: int| 0 <= i < pattern.len() implies slot_accepts(
            #[trigger] pattern[i],
            under[0 + i],
        ) by {
            assert(slot_accepts(pattern[i], hay[off + i]));
        }
    }
}

/// The counted offsets are matches from `from` on, in ascending order, and do not overlap.
pub proof fn match_offsets_do_not_overlap(
    hay: Seq<Option<u8>>,
    pattern: Seq<Option<u8>>,
    from: int,
)
    ensures
        ({
            let offs = match_offsets(hay, pattern, from);
            &&& forall|i: int|
                0 <= i < offs.len() ==> from <= #[trigger] offs[i] && matches_at(
                    hay,
                    pattern,
                    offs[i],
                )
            &&& forall|i: int, j: int|
                0 <= i < j < offs.len() ==> #[trigger] offs[i] + pattern.len() <= #[trigger] offs[j]
        }),
    decreases hay.len() - from + 1,
{
    first_match_is_leftmost(hay, pattern, from);
    let offs = match_offsets(hay, pattern, from);
    if offs.len() > 0 {
        let next = offs[0] + pattern.len();
        let rest = match_offsets(hay, pattern, next);
        match_offsets_do_not_overlap(hay, pattern, next);
        assert forall|i: int| 0 <= i < offs.len() implies from <= #[trigger] offs[i] && matches_at(
            hay,
            pattern,
            offs[i],
        ) by {
            if i > 0 {
                assert(offs[i] == rest[i - 1]);
            }
        }
        assert forall|i: int, j: int| 0 <= i < j < offs.len() implies #[trigger] offs[i]
            + pattern.len() <= #[trigger] offs[j] by {
            assert(offs[j] == rest[j - 1]);
            if i > 0 {
                assert(offs[i] == rest[i - 1]);
            }
        }
    }
}

/// No match is passed over: every match from `from` on begins inside a counted one.
pub proof fn every_match_begins_inside_a_counted_one(
    hay: Seq<Option<u8>>,
    pattern: Seq<Option<u8>>,
    from: int,
    off: int,
)
    requires
        pattern.len() > 0,
        from <= off,
        matches_at(hay, pattern, off),
    ensures
        exists|i: int|
            0 <= i < match_offsets(hay, pattern, from).len() && #[trigger] match_offsets(
                hay,
                pattern,
                from,
            )[i] <= off < match_offsets(hay, pattern, from)[i] + pattern.len(),
    decreases hay.len() - from + 1,
{
    first_match_is_leftmost(hay, pattern, from);
    let offs = match_offsets(hay, pattern, from);
    let next = offs[0] + pattern.len();
    assert(offs[0] <= off);
    if off >= next {
        let rest = match_offsets(hay, pattern, next);
        every_match_begins_inside_a_counted_one(hay, pattern, next, off);
        let i = choose|i: int|
            0 <= i < rest.len() && #[trigger] rest[i] <= off < rest[i] + pattern.len();
        assert(offs[i + 1] == rest[i]);
    }
}

/// The first counted offset is the first match; there is one exactly where there is the other.
pub proof fn match_offsets_begin_with_the_first_match(
    hay: Seq<Option<u8>>,
    pattern: Seq<Option<u8>>,
    from: int,
)
    requires
        pattern.len() > 0,
    ensures
        match first_match(hay, pattern, from) {
            Some(off) => match_offsets(hay, pattern, from).len() > 0 && match_offsets(
                hay,
                pattern,
                from,
            )[0] == off,
            None => match_offsets(hay, pattern, from).len() == 0,
        },
{
}

/// Since matches do not overlap, no more of them are counted than bytes are scanned.
pub proof fn match_count_is_bounded(hay: Seq<Option<u8>>, pattern: Seq<Option<u8>>, from: int)
    requires
        0 <= from <= hay.len(),
    ensures
        match_offsets(hay, pattern, from).len() <= hay.len() - from,
    decreases hay.len() - from,
{
    if pattern.len() > 0 {
        first_match_is_leftmost(hay, pattern, from);
        if let Some(off) = first_match(hay, pattern, from) {
            match_count_is_bounded(hay, pattern, off + pattern.len());
        }
    }
}

/// A pattern longer than the bytes that are left matches nowhere in them.
pub proof fn a_longer_pattern_has_no_match(
    hay: Seq<Option<u8>>,
    pattern: Seq<Option<u8>>,
    from: int,
)
    requires
        from + pattern.len() > hay.len(),
    ensures
        first_match(hay, pattern, from) is None,
        match_offsets(hay, pattern, from) == Seq::<int>::empty(),
{
}

/// A pattern that is counted once matches at one place alone: at the first match, inside which
/// any other match begins.
pub proof fn a_single_counted_match_is_unique(
    hay: Seq<Option<u8>>,
    pattern: Seq<Option<u8>>,
    from: int,
    other: int,
)
    requires
        match_offsets(hay, pattern, from).len() == 1,
        from <= other,
        matches_at(hay, pattern, other),
    ensures
        first_match(hay, pattern, from) matches Some(off) && off <= other < off + pattern.len(),
{
    every_match_begins_inside_a_counted_one(hay, pattern, from, other);
    match_offsets_begin_with_the_first_match(hay, pattern, from);
}

/// The byte under a wildcard does not matter.
pub proof fn a_wildcard_accepts_any_byte(
    hay: Seq<Option<u8>>,
    pattern: Seq<Option<u8>>,
    off: int,
    i: int,
    byte: Option<u8>,
)
    requires
        0 <= i < pattern.len(),
        pattern[i] is None,
        0 <= off + i < hay.len(),
    ensures
        matches_at(hay.update(off + i, byte), pattern, off) == matches_at(hay, pattern, off),
{
    let other = hay.update(off + i, byte);
    if matches_at(hay, pattern, off) {
        assert forall|k: int| 0 <= k < pattern.len() implies slot_accepts(
            #[trigger] pattern[k],
            other[off + k],
        ) by {
            assert(slot_accepts(pattern[k], hay[off + k]));
        }
    }
    if matches_at(other, pattern, off) {
        assert forall|k: int| 0 <= k < pattern.len() implies slot_accepts(
            #[trigger] pattern[k],
            hay[off + k],
        ) by {
            assert(slot_accepts(pattern[k], other[off + k]));
        }
    }
}

/// A literal accepts no byte but its own, and no unreadable address.
pub proof fn a_literal_accepts_its_byte_alone(
    hay: Seq<Option<u8>>,
    pattern: Seq<Option<u8>>,
    off: int,
    i: int,
)
    requires
        matches_at(hay, pattern, off),
        0 <= i < pattern.len(),
        pattern[i] is Some,
    ensures
        hay[off + i] == pattern[i],
{
    assert(slot_accepts(pattern[i], hay[off + i]));
}

} // verus!
