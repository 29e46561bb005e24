//! Scanning.
use pe_sigscan::pe::{text_section_bounds, IMAGE_SCN_MEM_EXECUTE};
use pe_sigscan::{
    count_in_exec_sections, count_in_section, count_in_slice, count_in_text,
    find_in_exec_sections, find_in_section, find_in_slice, find_in_text, iter_in_exec_sections,
    iter_in_section, iter_in_slice, iter_in_text, MemoryRegion,
};

/// A PE-shaped buffer with the given sections, each `(name, address, bytes,
/// characteristics)`.
fn synthetic_pe(sections: &[([u8; 8], u32, &[u8], u32)]) -> Vec<u8> {
    let needed = sections
        .iter()
        .map(|(_, vaddr, bytes, _)| *vaddr as usize + bytes.len())
        .max()
        .unwrap_or(0)
        .max(0x400);
    let mut buf = vec![0u8; needed];
    buf[0] = b'M';
    buf[1] = b'Z';
    let nt_offset: u32 = 0x80;
    buf[0x3C..0x40].copy_from_slice(&nt_offset.to_le_bytes());
    let nt = nt_offset as usize;
    buf[nt..nt + 4].copy_from_slice(b"PE\0\0");
    let num_sections: u16 = sections.len() as u16;
    buf[nt + 4 + 2..nt + 4 + 4].copy_from_slice(&num_sections.to_le_bytes());
    let opt_size: u16 = 0xF0;
    buf[nt + 4 + 16..nt + 4 + 18].copy_from_slice(&opt_size.to_le_bytes());
    let section_table = nt + 4 + 20 + opt_size as usize;
    for (i, (name, vaddr, bytes, characteristics)) in sections.iter().enumerate() {
        let sec = section_table + i * 40;
        buf[sec..sec + 8].copy_from_slice(name);
        let vsize: u32 = bytes.len() as u32;
        buf[sec + 8..sec + 12].copy_from_slice(&vsize.to_le_bytes());
        buf[sec + 12..sec + 16].copy_from_slice(&vaddr.to_le_bytes());
        buf[sec + 36..sec + 40].copy_from_slice(&characteristics.to_le_bytes());
        let v = *vaddr as usize;
        buf[v..v + bytes.len()].copy_from_slice(bytes);
    }
    buf
}

// -- slice variants ----------------------------------------------------

#[test]
fn slice_find_basic() {
    let haystack = [0x00, 0x11, 0x48, 0x8B, 0x05, 0x99, 0xAA];
    let pat: &[Option<u8>] = &[Some(0x48), Some(0x8B), Some(0x05)];
    let hit = find_in_slice(&haystack, pat).unwrap();
    assert_eq!(hit, haystack.as_ptr() as usize + 2);
}

#[test]
fn slice_find_wildcard() {
    let haystack = [0x00, 0x48, 0x77, 0x05, 0xFF];
    let pat: &[Option<u8>] = &[Some(0x48), None, Some(0x05)];
    let hit = find_in_slice(&haystack, pat).unwrap();
    assert_eq!(hit, haystack.as_ptr() as usize + 1);
}

#[test]
fn slice_find_misses_returns_none() {
    let haystack = [0x00, 0x11, 0x22];
    let pat: &[Option<u8>] = &[Some(0x48), Some(0x8B), Some(0x05)];
    assert!(find_in_slice(&haystack, pat).is_none());
}

#[test]
fn slice_find_empty_pattern_returns_none() {
    let haystack = [0x00, 0x11];
    let pat: &[Option<u8>] = &[];
    assert!(find_in_slice(&haystack, pat).is_none());
}

#[test]
fn slice_find_pattern_longer_than_haystack() {
    let haystack = [0x48];
    let pat: &[Option<u8>] = &[Some(0x48), Some(0x8B), Some(0x05)];
    assert!(find_in_slice(&haystack, pat).is_none());
}

#[test]
fn slice_find_all_wildcards_matches_first() {
    // Pattern with no anchor byte exercises the `has_anchor = false`
    // path inside `scan_range`.
    let haystack = [0xAA, 0xBB, 0xCC];
    let pat: &[Option<u8>] = &[None, None];
    let hit = find_in_slice(&haystack, pat).unwrap();
    assert_eq!(hit, haystack.as_ptr() as usize);
}

#[test]
fn slice_find_anchor_match_but_full_pattern_mismatch() {
    // The anchor byte (0x48) appears at offset 0 where the FULL pattern
    // does NOT match (next byte is 0xFF, not 0x8B), and again at offset
    // 2 where it DOES match. Forces the scanner to:
    //   * pass the anchor pre-filter at i=0
    //   * fall into `matches_at`, which compares index 1 (0x8B vs 0xFF)
    //     and returns false — exercising `matches_at`'s `return false`
    //     branch
    //   * advance i and continue searching — exercising `scan_range`'s
    //     post-mismatch `i += 1` line
    //   * eventually find the real match at offset 2
    let haystack = [0x48, 0xFF, 0x48, 0x8B];
    let pat: &[Option<u8>] = &[Some(0x48), Some(0x8B)];
    let hit = find_in_slice(&haystack, pat).unwrap();
    assert_eq!(hit, haystack.as_ptr() as usize + 2);
}

#[test]
fn slice_count_anchor_match_but_full_pattern_mismatch() {
    // Same construction as the previous test but for the count path,
    // exercising `count_range`'s `else { i += 1 }` branch when
    // `matches_at` returns false after an anchor pre-filter pass.
    let haystack = [0x48, 0xFF, 0x48, 0x8B];
    let pat: &[Option<u8>] = &[Some(0x48), Some(0x8B)];
    assert_eq!(count_in_slice(&haystack, pat), 1);
}

#[test]
fn slice_find_anchor_in_middle() {
    // First pattern byte is a wildcard, second is the anchor. Forces
    // `find_map` to skip past index 0 when computing the anchor.
    let haystack = [0xCC, 0x77, 0x99, 0xAA, 0x77, 0x99];
    let pat: &[Option<u8>] = &[None, Some(0x77), Some(0x99)];
    let hit = find_in_slice(&haystack, pat).unwrap();
    // First match at offset 0: pos[1]=0x77, pos[2]=0x99 → matches.
    assert_eq!(hit, haystack.as_ptr() as usize);
}

#[test]
fn slice_count_basic() {
    let haystack = [0x48, 0x8B, 0x00, 0x48, 0x8B, 0x00, 0x48, 0x8B];
    let pat: &[Option<u8>] = &[Some(0x48), Some(0x8B)];
    assert_eq!(count_in_slice(&haystack, pat), 3);
}

#[test]
fn slice_count_no_overlap() {
    // Pattern repeated in haystack — non-overlapping policy means we
    // count 2 matches (0..2 and 2..4), not 3.
    let haystack = [0x42, 0x42, 0x42, 0x42];
    let pat: &[Option<u8>] = &[Some(0x42), Some(0x42)];
    assert_eq!(count_in_slice(&haystack, pat), 2);
}

#[test]
fn slice_count_zero_when_no_match() {
    let haystack = [0x00, 0x11, 0x22];
    let pat: &[Option<u8>] = &[Some(0x48)];
    assert_eq!(count_in_slice(&haystack, pat), 0);
}

#[test]
fn slice_count_empty_pattern_returns_zero() {
    let haystack = [0x00, 0x11];
    let pat: &[Option<u8>] = &[];
    assert_eq!(count_in_slice(&haystack, pat), 0);
}

#[test]
fn slice_count_pattern_longer_than_haystack() {
    let haystack = [0x48];
    let pat: &[Option<u8>] = &[Some(0x48), Some(0x8B), Some(0x05)];
    assert_eq!(count_in_slice(&haystack, pat), 0);
}

#[test]
fn slice_count_all_wildcards() {
    // No-anchor count path. Two non-overlapping length-2 windows fit
    // in a 4-byte haystack.
    let haystack = [0xAA, 0xBB, 0xCC, 0xDD];
    let pat: &[Option<u8>] = &[None, None];
    assert_eq!(count_in_slice(&haystack, pat), 2);
}

// -- in-process variants (synthetic PE) --------------------------------

#[test]
fn synthetic_pe_text_find_and_count() {
    let text = [0x00u8, 0x11, 0x48, 0x8B, 0x05, 0xFF, 0x00, 0x48, 0x8B, 0x05];
    let buf = synthetic_pe(&[(*b".text\0\0\0", 0x300, &text, IMAGE_SCN_MEM_EXECUTE)]);
    let base = buf.as_ptr() as usize;
    let memory = MemoryRegion::new(base, &buf);
    let pat: &[Option<u8>] = &[Some(0x48), Some(0x8B), Some(0x05)];

    // First match is at the first hit, at offset 2 inside the section.
    let hit = find_in_text(&memory, base, pat).unwrap();
    assert_eq!(hit, base + 0x300 + 2);

    // Two non-overlapping matches in the synthetic body.
    assert_eq!(count_in_text(&memory, base, pat), 2);
}

#[test]
fn synthetic_pe_text_find_returns_none_when_no_match() {
    let text = [0xAAu8, 0xBB, 0xCC];
    let buf = synthetic_pe(&[(*b".text\0\0\0", 0x300, &text, IMAGE_SCN_MEM_EXECUTE)]);
    let base = buf.as_ptr() as usize;
    let memory = MemoryRegion::new(base, &buf);
    let pat: &[Option<u8>] = &[Some(0x48), Some(0x8B)];
    assert!(find_in_text(&memory, base, pat).is_none());
    assert_eq!(count_in_text(&memory, base, pat), 0);
}

#[test]
fn synthetic_pe_text_returns_none_when_no_text_section() {
    // No `.text` section, only `.data`. text_section_bounds returns None
    // → find/count both bail out via the early-return paths.
    let body = [0x48u8, 0x8B];
    let buf = synthetic_pe(&[(*b".data\0\0\0", 0x300, &body, 0)]);
    let base = buf.as_ptr() as usize;
    let memory = MemoryRegion::new(base, &buf);
    let pat: &[Option<u8>] = &[Some(0x48), Some(0x8B)];
    assert!(find_in_text(&memory, base, pat).is_none());
    assert_eq!(count_in_text(&memory, base, pat), 0);
}

#[test]
fn synthetic_pe_exec_sections_find_across_sections() {
    // Pattern is in the SECOND executable section. find_in_exec_sections
    // should still locate it after scanning past the first.
    let body_a = [0xAAu8, 0xBB];
    let body_b = [0x90u8, 0x90, 0xC3];
    let buf = synthetic_pe(&[
        (*b".text\0\0\0", 0x300, &body_a, IMAGE_SCN_MEM_EXECUTE),
        (*b".text$mn", 0x310, &body_b, IMAGE_SCN_MEM_EXECUTE),
    ]);
    let base = buf.as_ptr() as usize;
    let memory = MemoryRegion::new(base, &buf);
    let pat: &[Option<u8>] = &[Some(0x90), Some(0x90), Some(0xC3)];
    let hit = find_in_exec_sections(&memory, base, pat).unwrap();
    assert_eq!(hit, base + 0x310);
    assert_eq!(count_in_exec_sections(&memory, base, pat), 1);
}

#[test]
fn synthetic_pe_exec_sections_count_sums_across_sections() {
    // Same pattern in two executable sections. count_in_exec_sections
    // should sum (1 + 1).
    let body = [0x90u8, 0x90];
    let buf = synthetic_pe(&[
        (*b".text\0\0\0", 0x300, &body, IMAGE_SCN_MEM_EXECUTE),
        (*b".text$mn", 0x310, &body, IMAGE_SCN_MEM_EXECUTE),
    ]);
    let base = buf.as_ptr() as usize;
    let memory = MemoryRegion::new(base, &buf);
    let pat: &[Option<u8>] = &[Some(0x90), Some(0x90)];
    assert_eq!(count_in_exec_sections(&memory, base, pat), 2);
}

#[test]
fn synthetic_pe_exec_sections_returns_none_when_no_match() {
    let body = [0xAAu8];
    let buf = synthetic_pe(&[(*b".text\0\0\0", 0x300, &body, IMAGE_SCN_MEM_EXECUTE)]);
    let base = buf.as_ptr() as usize;
    let memory = MemoryRegion::new(base, &buf);
    let pat: &[Option<u8>] = &[Some(0x48)];
    assert!(find_in_exec_sections(&memory, base, pat).is_none());
    assert_eq!(count_in_exec_sections(&memory, base, pat), 0);
}

// -- guard paths -------------------------------------------------------

#[test]
fn null_module_returns_none_or_zero() {
    let pat: &[Option<u8>] = &[Some(0x48)];
    let memory = MemoryRegion::new(0, &[]);
    assert!(find_in_text(&memory, 0, pat).is_none());
    assert_eq!(count_in_text(&memory, 0, pat), 0);
    assert!(find_in_exec_sections(&memory, 0, pat).is_none());
    assert_eq!(count_in_exec_sections(&memory, 0, pat), 0);
}

#[test]
fn empty_pattern_returns_none_or_zero() {
    let body = [0x90u8];
    let buf = synthetic_pe(&[(*b".text\0\0\0", 0x300, &body, IMAGE_SCN_MEM_EXECUTE)]);
    let base = buf.as_ptr() as usize;
    let memory = MemoryRegion::new(base, &buf);
    let pat: &[Option<u8>] = &[];
    assert!(find_in_text(&memory, base, pat).is_none());
    assert_eq!(count_in_text(&memory, base, pat), 0);
    assert!(find_in_exec_sections(&memory, base, pat).is_none());
    assert_eq!(count_in_exec_sections(&memory, base, pat), 0);
}

#[test]
fn malformed_module_returns_none_or_zero() {
    // Buffer is all zeros — no MZ signature → headers fail to parse →
    // every public scan function bails out gracefully.
    let buf = vec![0u8; 0x400];
    let base = buf.as_ptr() as usize;
    let memory = MemoryRegion::new(base, &buf);
    let pat: &[Option<u8>] = &[Some(0x48)];
    assert!(find_in_text(&memory, base, pat).is_none());
    assert_eq!(count_in_text(&memory, base, pat), 0);
    assert!(find_in_exec_sections(&memory, base, pat).is_none());
    assert_eq!(count_in_exec_sections(&memory, base, pat), 0);
}

// -- raw-pointer all-wildcard fast path -------------------------------

/// All-wildcard pattern via the in-process API exercises the
/// `scan_range`/`count_range` "no anchor" early-return branches.
#[test]
fn synthetic_pe_text_all_wildcard_pattern() {
    let text = [0xAAu8; 16];
    let buf = synthetic_pe(&[(*b".text\0\0\0", 0x300, &text, IMAGE_SCN_MEM_EXECUTE)]);
    let base = buf.as_ptr() as usize;
    let memory = MemoryRegion::new(base, &buf);
    let pat: &[Option<u8>] = &[None, None, None, None];

    // Find returns the section start (offset 0).
    let hit = find_in_text(&memory, base, pat).unwrap();
    let (text_start, _) = text_section_bounds(&memory, base).unwrap();
    assert_eq!(hit, text_start);

    // Count: floor(section_size / pat_len). Section is padded to its
    // declared VirtualSize, not just the body length, so we just check
    // the result is positive and divides cleanly.
    let count = count_in_text(&memory, base, pat);
    assert!(count >= text.len() / 4);
}

// -- candidate-past-upper break path ----------------------------------

/// Anchor byte appears in the trailing window where the full pattern
/// no longer fits — `scan_slice` / `count_slice` must take the
/// `candidate > upper` early-return / break path.
#[test]
fn slice_anchor_at_tail_no_room_for_pattern() {
    // Anchor is 0x48; pattern length is 4. Plant 0x48 in the last byte
    // so candidate would be haystack.len()-1 > upper = haystack.len()-4.
    let mut buf = vec![0u8; 16];
    buf[15] = 0x48;
    let pat: &[Option<u8>] = &[Some(0x48), Some(0x8B), Some(0x05), None];

    assert!(find_in_slice(&buf, pat).is_none());
    assert_eq!(count_in_slice(&buf, pat), 0);
}

/// `scan_slice` natural fall-through path: the anchor pre-filter
/// passes at `candidate == upper` but `matches_at` rejects the
/// candidate, leaving `i = candidate + 1 > upper` so the while loop
/// exits without ever returning, falling through to the trailing
/// `None`.
#[test]
fn slice_find_loop_exhausts_when_last_candidate_fails() {
    // pat_len = 2, haystack.len() = 4, upper = 2. 0x48 only at index 2.
    // matches_at(2) fails because byte 3 is 0xFF, not 0x8B.
    let haystack = [0x00, 0x00, 0x48, 0xFF];
    let pat: &[Option<u8>] = &[Some(0x48), Some(0x8B)];
    assert!(find_in_slice(&haystack, pat).is_none());
}

// -- raw-pointer "anchor matches, full pattern doesn't" ---------------

/// Forces the in-process `scan_range` / `count_range` scanners through
/// the `matches_at == false` branch (raw-pointer `i = candidate + 1`),
/// and through the `candidate > upper` break path when the anchor
/// hits in the trailing window where the pattern no longer fits.
#[test]
fn synthetic_pe_text_anchor_match_but_full_pattern_mismatch() {
    // Anchor 0x48 appears at offset 0 (full pattern fails) and at
    // offset 4 which is past the upper bound for pat_len = 4 in a
    // 5-byte body — exercising both `i = candidate + 1` (raw path)
    // and `candidate > upper` (raw path) in one test.
    let body = [0x48, 0x00, 0x00, 0x00, 0x48];
    let buf = synthetic_pe(&[(*b".text\0\0\0", 0x300, &body, IMAGE_SCN_MEM_EXECUTE)]);
    let base = buf.as_ptr() as usize;
    let memory = MemoryRegion::new(base, &buf);
    let pat: &[Option<u8>] = &[Some(0x48), Some(0xAA), Some(0xBB), Some(0xCC)];

    assert!(find_in_text(&memory, base, pat).is_none());
    assert_eq!(count_in_text(&memory, base, pat), 0);
}

/// Companion to the above: anchor matches at exactly `upper` but the
/// full pattern doesn't, so `scan_range`'s while loop exits naturally
/// via the trailing `None`, and `count_range`'s while loop exits with
/// `count == 0`.
#[test]
fn synthetic_pe_text_anchor_at_upper_then_loop_exhausts() {
    // pat_len = 4, body.len() = 4, upper = 0. Anchor at 0, full
    // pattern fails (0x48 OK, 0x00 != 0xAA), i = 1, loop exits.
    let body = [0x48, 0x00, 0x00, 0x00];
    let buf = synthetic_pe(&[(*b".text\0\0\0", 0x300, &body, IMAGE_SCN_MEM_EXECUTE)]);
    let base = buf.as_ptr() as usize;
    let memory = MemoryRegion::new(base, &buf);
    let pat: &[Option<u8>] = &[Some(0x48), Some(0xAA), Some(0xBB), Some(0xCC)];

    assert!(find_in_text(&memory, base, pat).is_none());
    assert_eq!(count_in_text(&memory, base, pat), 0);
}

// -- iterator (slice) -------------------------------------------------

#[test]
fn iter_slice_yields_all_non_overlapping_matches() {
    let bytes = [
        0x48, 0x8B, 0x05, 0x00, 0x48, 0x8B, 0x05, 0xFF, 0x48, 0x8B, 0x05,
    ];
    let pat: &[Option<u8>] = &[Some(0x48), Some(0x8B), Some(0x05)];
    let hits: Vec<usize> = iter_in_slice(&bytes, pat).collect();
    assert_eq!(hits.len(), 3);
    assert_eq!(hits[0], bytes.as_ptr() as usize);
    assert_eq!(hits[1], bytes.as_ptr() as usize + 4);
    assert_eq!(hits[2], bytes.as_ptr() as usize + 8);
}

#[test]
fn iter_slice_count_matches_count_in_slice() {
    // The iterator and `count_in_slice` use the same non-overlap rule,
    // so `iter_in_slice(..).count()` must equal `count_in_slice(..)`.
    let bytes = [0x42, 0x42, 0x42, 0x42, 0x42];
    let pat: &[Option<u8>] = &[Some(0x42), Some(0x42)];
    assert_eq!(
        iter_in_slice(&bytes, pat).count(),
        count_in_slice(&bytes, pat)
    );
}

#[test]
fn iter_slice_empty_pattern_yields_nothing() {
    let bytes = [0x00, 0x11, 0x22];
    let pat: &[Option<u8>] = &[];
    assert_eq!(iter_in_slice(&bytes, pat).count(), 0);
}

#[test]
fn iter_slice_no_match_yields_nothing() {
    let bytes = [0xAA, 0xBB, 0xCC];
    let pat: &[Option<u8>] = &[Some(0x48), Some(0x8B)];
    assert_eq!(iter_in_slice(&bytes, pat).count(), 0);
}

#[test]
fn iter_slice_pattern_longer_than_haystack_yields_nothing() {
    let bytes = [0x48];
    let pat: &[Option<u8>] = &[Some(0x48), Some(0x8B), Some(0x05)];
    assert_eq!(iter_in_slice(&bytes, pat).count(), 0);
}

#[test]
fn iter_slice_with_wildcards() {
    // Pattern `48 ?? 05` should match at offsets 0 (48 8B 05) and
    // 3 (48 99 05), but NOT at offset 6 (48 AA FF — 3rd byte not 05).
    let bytes = [0x48, 0x8B, 0x05, 0x48, 0x99, 0x05, 0x48, 0xAA, 0xFF];
    let pat: &[Option<u8>] = &[Some(0x48), None, Some(0x05)];
    let hits: Vec<usize> = iter_in_slice(&bytes, pat).collect();
    assert_eq!(hits.len(), 2);
    assert_eq!(hits[0], bytes.as_ptr() as usize);
    assert_eq!(hits[1], bytes.as_ptr() as usize + 3);
}

#[test]
fn iter_slice_all_wildcard_pattern_strides_by_pat_len() {
    // All-wildcard pattern of length 2 in a 5-byte haystack: yields
    // matches at 0 and 2 (non-overlap). Offset 4 has only one byte
    // remaining so the pattern doesn't fit.
    let bytes = [0xAA, 0xBB, 0xCC, 0xDD, 0xEE];
    let pat: &[Option<u8>] = &[None, None];
    let hits: Vec<usize> = iter_in_slice(&bytes, pat).collect();
    assert_eq!(hits.len(), 2);
    assert_eq!(hits[0], bytes.as_ptr() as usize);
    assert_eq!(hits[1], bytes.as_ptr() as usize + 2);
}

#[test]
fn iter_slice_clone_is_independent() {
    // The Clone impl on the iterator must not share state with its
    // origin — both clones should yield the same sequence.
    let bytes = [0x48, 0x8B, 0x00, 0x48, 0x8B];
    let pat: &[Option<u8>] = &[Some(0x48), Some(0x8B)];
    let it = iter_in_slice(&bytes, pat);
    let from_clone: Vec<usize> = it.clone().collect();
    let from_original: Vec<usize> = it.collect();
    assert_eq!(from_clone, from_original);
    assert_eq!(from_clone.len(), 2);
}

// -- iterator (in-process .text) --------------------------------------

#[test]
fn iter_in_text_yields_all_matches() {
    let body = [0x48u8, 0x8B, 0x05, 0x00, 0x48, 0x8B, 0x05];
    let buf = synthetic_pe(&[(*b".text\0\0\0", 0x300, &body, IMAGE_SCN_MEM_EXECUTE)]);
    let base = buf.as_ptr() as usize;
    let memory = MemoryRegion::new(base, &buf);
    let pat: &[Option<u8>] = &[Some(0x48), Some(0x8B), Some(0x05)];
    let hits: Vec<usize> = iter_in_text(&memory, base, pat).collect();
    assert_eq!(hits.len(), 2);
    assert_eq!(hits[0], base + 0x300);
    assert_eq!(hits[1], base + 0x300 + 4);
}

#[test]
fn iter_in_text_first_matches_find_in_text() {
    // The first iterator yield must equal the single-shot `find_in_text`
    // result — both use the same scan_range_from primitive.
    let body = [0x90u8, 0x90, 0x48, 0x8B, 0x05, 0xCC];
    let buf = synthetic_pe(&[(*b".text\0\0\0", 0x300, &body, IMAGE_SCN_MEM_EXECUTE)]);
    let base = buf.as_ptr() as usize;
    let memory = MemoryRegion::new(base, &buf);
    let pat: &[Option<u8>] = &[Some(0x48), Some(0x8B), Some(0x05)];
    let from_iter = iter_in_text(&memory, base, pat).next();
    let from_find = find_in_text(&memory, base, pat);
    assert_eq!(from_iter, from_find);
    assert_eq!(from_iter, Some(base + 0x300 + 2));
}

#[test]
fn iter_in_text_count_matches_count_in_text() {
    // Iterator length must equal count_in_text result.
    let body = [0x48u8, 0x8B, 0x00, 0x48, 0x8B, 0x00, 0x48, 0x8B];
    let buf = synthetic_pe(&[(*b".text\0\0\0", 0x300, &body, IMAGE_SCN_MEM_EXECUTE)]);
    let base = buf.as_ptr() as usize;
    let memory = MemoryRegion::new(base, &buf);
    let pat: &[Option<u8>] = &[Some(0x48), Some(0x8B)];
    assert_eq!(iter_in_text(&memory, base, pat).count(), count_in_text(&memory, base, pat));
}

#[test]
fn iter_in_text_null_module_yields_nothing() {
    let pat: &[Option<u8>] = &[Some(0x48)];
    let memory = MemoryRegion::new(0, &[]);
    assert_eq!(iter_in_text(&memory, 0, pat).count(), 0);
}

#[test]
fn iter_in_text_empty_pattern_yields_nothing() {
    let body = [0x90u8];
    let buf = synthetic_pe(&[(*b".text\0\0\0", 0x300, &body, IMAGE_SCN_MEM_EXECUTE)]);
    let base = buf.as_ptr() as usize;
    let memory = MemoryRegion::new(base, &buf);
    let pat: &[Option<u8>] = &[];
    assert_eq!(iter_in_text(&memory, base, pat).count(), 0);
}

#[test]
fn iter_in_text_missing_text_section_yields_nothing() {
    // Module has only `.data`, no `.text` — iterator returns empty.
    let body = [0x48u8, 0x8B];
    let buf = synthetic_pe(&[(*b".data\0\0\0", 0x300, &body, 0)]);
    let base = buf.as_ptr() as usize;
    let memory = MemoryRegion::new(base, &buf);
    let pat: &[Option<u8>] = &[Some(0x48), Some(0x8B)];
    assert_eq!(iter_in_text(&memory, base, pat).count(), 0);
}

#[test]
fn iter_in_text_malformed_module_yields_nothing() {
    // No MZ → text_section_bounds returns None → empty sections list.
    let buf = vec![0u8; 0x400];
    let base = buf.as_ptr() as usize;
    let memory = MemoryRegion::new(base, &buf);
    let pat: &[Option<u8>] = &[Some(0x48)];
    assert_eq!(iter_in_text(&memory, base, pat).count(), 0);
}

// -- iterator (in-process all exec sections) --------------------------

#[test]
fn iter_in_exec_sections_yields_across_multiple_sections() {
    let body_a = [0x90u8, 0x90, 0xC3];
    let body_b = [0x48u8, 0x8B, 0x05, 0xCC, 0x48, 0x8B, 0x05];
    let buf = synthetic_pe(&[
        (*b".text\0\0\0", 0x300, &body_a, IMAGE_SCN_MEM_EXECUTE),
        (*b".text$mn", 0x310, &body_b, IMAGE_SCN_MEM_EXECUTE),
    ]);
    let base = buf.as_ptr() as usize;
    let memory = MemoryRegion::new(base, &buf);
    let pat: &[Option<u8>] = &[Some(0x48), Some(0x8B), Some(0x05)];
    let hits: Vec<usize> = iter_in_exec_sections(&memory, base, pat).collect();
    // Two matches, both in the second exec section.
    assert_eq!(hits.len(), 2);
    assert_eq!(hits[0], base + 0x310);
    assert_eq!(hits[1], base + 0x310 + 4);
}

#[test]
fn iter_in_exec_sections_advances_to_next_section_after_exhaustion() {
    // First section has zero matches, second has one — iterator must
    // skip past the first cleanly.
    let body_a = [0xAAu8, 0xBB, 0xCC];
    let body_b = [0x90u8, 0x90, 0xC3];
    let buf = synthetic_pe(&[
        (*b".text\0\0\0", 0x300, &body_a, IMAGE_SCN_MEM_EXECUTE),
        (*b".text$mn", 0x310, &body_b, IMAGE_SCN_MEM_EXECUTE),
    ]);
    let base = buf.as_ptr() as usize;
    let memory = MemoryRegion::new(base, &buf);
    let pat: &[Option<u8>] = &[Some(0x90), Some(0x90), Some(0xC3)];
    let hits: Vec<usize> = iter_in_exec_sections(&memory, base, pat).collect();
    assert_eq!(hits, vec![base + 0x310]);
}

#[test]
fn iter_in_exec_sections_count_sums_across_sections() {
    let body = [0x90u8, 0x90];
    let buf = synthetic_pe(&[
        (*b".text\0\0\0", 0x300, &body, IMAGE_SCN_MEM_EXECUTE),
        (*b".text$mn", 0x310, &body, IMAGE_SCN_MEM_EXECUTE),
    ]);
    let base = buf.as_ptr() as usize;
    let memory = MemoryRegion::new(base, &buf);
    let pat: &[Option<u8>] = &[Some(0x90), Some(0x90)];
    // One match per section, two sections → iterator length = 2.
    assert_eq!(
        iter_in_exec_sections(&memory, base, pat).count(),
        count_in_exec_sections(&memory, base, pat)
    );
    assert_eq!(iter_in_exec_sections(&memory, base, pat).count(), 2);
}

#[test]
fn iter_in_exec_sections_null_module_yields_nothing() {
    let pat: &[Option<u8>] = &[Some(0x48)];
    let memory = MemoryRegion::new(0, &[]);
    assert_eq!(iter_in_exec_sections(&memory, 0, pat).count(), 0);
}

#[test]
fn iter_in_exec_sections_empty_pattern_yields_nothing() {
    let body = [0x90u8];
    let buf = synthetic_pe(&[(*b".text\0\0\0", 0x300, &body, IMAGE_SCN_MEM_EXECUTE)]);
    let base = buf.as_ptr() as usize;
    let memory = MemoryRegion::new(base, &buf);
    let pat: &[Option<u8>] = &[];
    assert_eq!(iter_in_exec_sections(&memory, base, pat).count(), 0);
}

#[test]
fn iter_in_exec_sections_malformed_module_yields_nothing() {
    let buf = vec![0u8; 0x400];
    let base = buf.as_ptr() as usize;
    let memory = MemoryRegion::new(base, &buf);
    let pat: &[Option<u8>] = &[Some(0x48)];
    assert_eq!(iter_in_exec_sections(&memory, base, pat).count(), 0);
}

/// Two-section PE used by every bounds-sanity test:
///
/// - `.text  @ 0x300`: `90 AA BB CC DD C3` (only `[AA BB CC DD]` and
///   `[AA BB]` substrings).
/// - `.rdata @ 0x400`: `00 11 22 33 44 11 22 FF` (two `[11 22]`
///   matches at offsets +0x401 and +0x405).
///
/// Patterns are picked so byte values in one section never collide
/// with the other — bleed across section boundaries shows up
/// directly as a wrong count.
fn multi_section_pe() -> Vec<u8> {
    let text_body = [0x90u8, 0xAA, 0xBB, 0xCC, 0xDD, 0xC3];
    let rdata_body = [0x00u8, 0x11, 0x22, 0x33, 0x44, 0x11, 0x22, 0xFF];
    synthetic_pe(&[
        (*b".text\0\0\0", 0x300, &text_body, IMAGE_SCN_MEM_EXECUTE),
        (*b".rdata\0\0", 0x400, &rdata_body, 0),
    ])
}

// -- find_in_section -----------------------------------------------

#[test]
fn returns_match_in_named_section() {
    let buf = multi_section_pe();
    let base = buf.as_ptr() as usize;
    let memory = MemoryRegion::new(base, &buf);
    let pat: &[Option<u8>] = &[Some(0x11), Some(0x22), Some(0x33)];
    assert_eq!(find_in_section(&memory, base, b".rdata", pat), Some(base + 0x401));
}

#[test]
fn does_not_cross_section_bounds() {
    // Pattern lives only in .text — querying .rdata must miss,
    // querying .text must hit. Catches the regression where a
    // section-targeted scanner accidentally walks the whole image.
    let buf = multi_section_pe();
    let base = buf.as_ptr() as usize;
    let memory = MemoryRegion::new(base, &buf);
    let pat: &[Option<u8>] = &[Some(0xAA), Some(0xBB), Some(0xCC), Some(0xDD)];
    assert!(find_in_section(&memory, base, b".rdata", pat).is_none());
    assert_eq!(find_in_section(&memory, base, b".text", pat), Some(base + 0x301));
}

#[test]
fn matches_section_name_by_prefix() {
    // ".rdata$z" suffix-tagged section caught by ".rdata" query.
    let body = [0xDEu8, 0xAD, 0xBE, 0xEF];
    let buf = synthetic_pe(&[(*b".rdata$z", 0x300, &body, 0)]);
    let base = buf.as_ptr() as usize;
    let memory = MemoryRegion::new(base, &buf);
    let pat: &[Option<u8>] = &[Some(0xDE), Some(0xAD), Some(0xBE), Some(0xEF)];
    assert_eq!(find_in_section(&memory, base, b".rdata", pat), Some(base + 0x300));
}

#[test]
fn full_eight_byte_name_disambiguates() {
    // Two sections both starting with ".text"; the 8-byte query
    // must hit ".text\0\0\0" exactly and skip ".text$mn".
    let mn_body = [0x11u8, 0x22, 0x33];
    let text_body = [0xAAu8, 0xBB, 0xCC];
    let buf = synthetic_pe(&[
        (*b".text$mn", 0x300, &mn_body, IMAGE_SCN_MEM_EXECUTE),
        (*b".text\0\0\0", 0x400, &text_body, IMAGE_SCN_MEM_EXECUTE),
    ]);
    let base = buf.as_ptr() as usize;
    let memory = MemoryRegion::new(base, &buf);
    // Querying with the full 8-byte name lands on the second section.
    let pat: &[Option<u8>] = &[Some(0xAA), Some(0xBB), Some(0xCC)];
    assert_eq!(
        find_in_section(&memory, base, b".text\0\0\0", pat),
        Some(base + 0x400),
    );
    // Bytes from the .text\0\0\0 section are absent from .text$mn.
    assert!(find_in_section(&memory, base, b".text$mn", pat).is_none());
}

#[test]
fn returns_none_when_section_missing() {
    let body = [0x90u8];
    let buf = synthetic_pe(&[(*b".text\0\0\0", 0x300, &body, IMAGE_SCN_MEM_EXECUTE)]);
    let base = buf.as_ptr() as usize;
    let memory = MemoryRegion::new(base, &buf);
    let pat: &[Option<u8>] = &[Some(0x90)];
    assert!(find_in_section(&memory, base, b".rdata", pat).is_none());
}

#[test]
fn returns_none_when_pattern_absent() {
    let buf = multi_section_pe();
    let base = buf.as_ptr() as usize;
    let memory = MemoryRegion::new(base, &buf);
    let pat: &[Option<u8>] = &[Some(0xFF), Some(0xFF), Some(0xFF), Some(0xFF)];
    assert!(find_in_section(&memory, base, b".rdata", pat).is_none());
}

#[test]
fn null_module_returns_none() {
    let pat: &[Option<u8>] = &[Some(0x90)];
    let memory = MemoryRegion::new(0, &[]);
    assert!(find_in_section(&memory, 0, b".rdata", pat).is_none());
}

#[test]
fn empty_pattern_returns_none() {
    let buf = multi_section_pe();
    let base = buf.as_ptr() as usize;
    let memory = MemoryRegion::new(base, &buf);
    let pat: &[Option<u8>] = &[];
    assert!(find_in_section(&memory, base, b".rdata", pat).is_none());
}

#[test]
fn malformed_module_returns_none() {
    let buf = vec![0u8; 0x400];
    let base = buf.as_ptr() as usize;
    let memory = MemoryRegion::new(base, &buf);
    let pat: &[Option<u8>] = &[Some(0x90)];
    assert!(find_in_section(&memory, base, b".rdata", pat).is_none());
}

// -- count_in_section ----------------------------------------------

#[test]
fn count_finds_all_matches_in_section() {
    let buf = multi_section_pe();
    let base = buf.as_ptr() as usize;
    let memory = MemoryRegion::new(base, &buf);
    // [11 22] appears twice in .rdata (offsets +0x401, +0x405).
    let pat: &[Option<u8>] = &[Some(0x11), Some(0x22)];
    assert_eq!(count_in_section(&memory, base, b".rdata", pat), 2);
}

#[test]
fn count_does_not_include_other_sections() {
    let buf = multi_section_pe();
    let base = buf.as_ptr() as usize;
    let memory = MemoryRegion::new(base, &buf);
    // [AA BB] is in .text only.
    let pat: &[Option<u8>] = &[Some(0xAA), Some(0xBB)];
    assert_eq!(count_in_section(&memory, base, b".rdata", pat), 0);
    assert_eq!(count_in_section(&memory, base, b".text", pat), 1);
}

#[test]
fn count_returns_zero_when_section_missing() {
    let body = [0x90u8];
    let buf = synthetic_pe(&[(*b".text\0\0\0", 0x300, &body, IMAGE_SCN_MEM_EXECUTE)]);
    let base = buf.as_ptr() as usize;
    let memory = MemoryRegion::new(base, &buf);
    let pat: &[Option<u8>] = &[Some(0x90)];
    assert_eq!(count_in_section(&memory, base, b".rdata", pat), 0);
}

#[test]
fn count_null_module_returns_zero() {
    let pat: &[Option<u8>] = &[Some(0x90)];
    let memory = MemoryRegion::new(0, &[]);
    assert_eq!(count_in_section(&memory, 0, b".rdata", pat), 0);
}

#[test]
fn count_empty_pattern_returns_zero() {
    let buf = multi_section_pe();
    let base = buf.as_ptr() as usize;
    let memory = MemoryRegion::new(base, &buf);
    let pat: &[Option<u8>] = &[];
    assert_eq!(count_in_section(&memory, base, b".rdata", pat), 0);
}

#[test]
fn count_malformed_module_returns_zero() {
    let buf = vec![0u8; 0x400];
    let base = buf.as_ptr() as usize;
    let memory = MemoryRegion::new(base, &buf);
    let pat: &[Option<u8>] = &[Some(0x90)];
    assert_eq!(count_in_section(&memory, base, b".rdata", pat), 0);
}

// -- iter_in_section -----------------------------------------------

#[test]
fn iter_yields_all_matches_in_order() {
    let buf = multi_section_pe();
    let base = buf.as_ptr() as usize;
    let memory = MemoryRegion::new(base, &buf);
    let pat: &[Option<u8>] = &[Some(0x11), Some(0x22)];
    let hits: Vec<usize> = iter_in_section(&memory, base, b".rdata", pat).collect();
    assert_eq!(hits, vec![base + 0x401, base + 0x405]);
}

#[test]
fn iter_first_equals_find_in_section() {
    let buf = multi_section_pe();
    let base = buf.as_ptr() as usize;
    let memory = MemoryRegion::new(base, &buf);
    let pat: &[Option<u8>] = &[Some(0x11), Some(0x22)];
    assert_eq!(
        iter_in_section(&memory, base, b".rdata", pat).next(),
        find_in_section(&memory, base, b".rdata", pat),
    );
}

#[test]
fn iter_count_equals_count_in_section() {
    let buf = multi_section_pe();
    let base = buf.as_ptr() as usize;
    let memory = MemoryRegion::new(base, &buf);
    let pat: &[Option<u8>] = &[Some(0x11), Some(0x22)];
    assert_eq!(
        iter_in_section(&memory, base, b".rdata", pat).count(),
        count_in_section(&memory, base, b".rdata", pat),
    );
}

#[test]
fn iter_does_not_cross_section_bounds() {
    let buf = multi_section_pe();
    let base = buf.as_ptr() as usize;
    let memory = MemoryRegion::new(base, &buf);
    let pat: &[Option<u8>] = &[Some(0xAA), Some(0xBB)];
    assert_eq!(iter_in_section(&memory, base, b".rdata", pat).count(), 0);
}

#[test]
fn iter_section_missing_yields_nothing() {
    let body = [0x90u8];
    let buf = synthetic_pe(&[(*b".text\0\0\0", 0x300, &body, IMAGE_SCN_MEM_EXECUTE)]);
    let base = buf.as_ptr() as usize;
    let memory = MemoryRegion::new(base, &buf);
    let pat: &[Option<u8>] = &[Some(0x90)];
    assert_eq!(iter_in_section(&memory, base, b".rdata", pat).count(), 0);
}

#[test]
fn iter_null_module_yields_nothing() {
    let pat: &[Option<u8>] = &[Some(0x90)];
    let memory = MemoryRegion::new(0, &[]);
    assert_eq!(iter_in_section(&memory, 0, b".rdata", pat).count(), 0);
}

#[test]
fn iter_empty_pattern_yields_nothing() {
    let buf = multi_section_pe();
    let base = buf.as_ptr() as usize;
    let memory = MemoryRegion::new(base, &buf);
    let pat: &[Option<u8>] = &[];
    assert_eq!(iter_in_section(&memory, base, b".rdata", pat).count(), 0);
}

#[test]
fn iter_malformed_module_yields_nothing() {
    let buf = vec![0u8; 0x400];
    let base = buf.as_ptr() as usize;
    let memory = MemoryRegion::new(base, &buf);
    let pat: &[Option<u8>] = &[Some(0x90)];
    assert_eq!(iter_in_section(&memory, base, b".rdata", pat).count(), 0);
}
