//! PE header walking.
use pe_sigscan::memory::MemoryReader;
use pe_sigscan::pe::{
    exec_sections, exec_sections_with, find_section, find_section_with, iter_sections,
    iter_sections_with, module_size, module_size_with, parse_pe_headers, parse_pe_headers_with,
    text_section_bounds, text_section_bounds_with, SectionInfo, IMAGE_SCN_MEM_EXECUTE,
    IMAGE_SCN_MEM_READ, IMAGE_SCN_MEM_WRITE, OPTIONAL_HEADER_OFFSET, SECTION_NAME_TEXT,
};
use pe_sigscan::MemoryRegion;

struct SliceReader {
    base: usize,
    bytes: Vec<u8>,
}

impl MemoryReader for SliceReader {
    fn read_bytes(&self, addr: usize, buf: &mut [u8]) -> Option<()> {
        let start = addr.checked_sub(self.base)?;
        let end = start.checked_add(buf.len())?;
        if end > self.bytes.len() {
            return None;
        }
        buf.copy_from_slice(&self.bytes[start..end]);
        Some(())
    }
}

/// Build a minimal PE-shaped byte buffer with a configurable
/// section list. Each entry is `(name_8b, virtual_address,
/// text_bytes, characteristics)`. Returns the buffer; the section
/// payload bytes are copied into the buffer at each section's
/// declared `virtual_address`.
///
/// Writes a valid `OptionalHeader.SizeOfImage` equal to the total
/// buffer length so [`module_size`] tests have an inspectable
/// non-zero value to compare against. The other tests don't read
/// SizeOfImage, so the extra write is a no-op for them.
///
/// This is intentionally barebones — it is NOT a valid loadable
/// PE; only the fields the parser reads are populated. Sufficient
/// to drive every branch in the PE-walking code from a unit test
/// without needing a real DLL on disk.
fn synthetic_pe(sections: &[([u8; 8], u32, &[u8], u32)]) -> Vec<u8> {
    let needed = sections
        .iter()
        .map(|(_, vaddr, bytes, _)| *vaddr as usize + bytes.len())
        .max()
        .unwrap_or(0)
        .max(0x400);
    let mut buf = vec![0u8; needed];
    // DOS header magic at +0.
    buf[0] = b'M';
    buf[1] = b'Z';
    // e_lfanew at +0x3C → NT headers at 0x80.
    let nt_offset: u32 = 0x80;
    buf[0x3C..0x40].copy_from_slice(&nt_offset.to_le_bytes());
    let nt = nt_offset as usize;
    // NT signature 'PE\0\0' at NT+0.
    buf[nt..nt + 4].copy_from_slice(b"PE\0\0");
    // FILE_HEADER at NT+4: NumberOfSections (u16) at +2.
    let num_sections: u16 = sections.len() as u16;
    buf[nt + 4 + 2..nt + 4 + 4].copy_from_slice(&num_sections.to_le_bytes());
    // SizeOfOptionalHeader (u16) at +16 = 0xF0 (typical PE32+).
    let opt_size: u16 = 0xF0;
    buf[nt + 4 + 16..nt + 4 + 18].copy_from_slice(&opt_size.to_le_bytes());
    // OptionalHeader.SizeOfImage at NT + 24 + 56 (= NT + 80).
    // Same offset in PE32 and PE32+.
    let size_of_image: u32 = needed as u32;
    let soi_offset = nt + OPTIONAL_HEADER_OFFSET + 56;
    buf[soi_offset..soi_offset + 4].copy_from_slice(&size_of_image.to_le_bytes());
    // Section table starts at NT+4+20+opt_size.
    let section_table = nt + 4 + 20 + opt_size as usize;

    for (i, (name, vaddr, bytes, characteristics)) in sections.iter().enumerate() {
        let sec = section_table + i * 40;
        buf[sec..sec + 8].copy_from_slice(name);
        let vsize: u32 = bytes.len() as u32;
        buf[sec + 8..sec + 12].copy_from_slice(&vsize.to_le_bytes());
        buf[sec + 12..sec + 16].copy_from_slice(&vaddr.to_le_bytes());
        buf[sec + 36..sec + 40].copy_from_slice(&characteristics.to_le_bytes());
        let v = *vaddr as usize;
        buf[v..v + bytes.len()].copy_from_slice(bytes);
    }
    buf
}

// -- parse_pe_headers -------------------------------------------------

#[test]
fn parse_pe_headers_returns_none_for_zero_base() {
    let memory = MemoryRegion::new(0, &[]);
    assert!(parse_pe_headers(&memory, 0).is_none());
}

#[test]
fn parse_pe_headers_returns_none_for_missing_mz() {
    let buf = vec![0u8; 0x400];
    let memory = MemoryRegion::new(buf.as_ptr() as usize, &buf);
    assert!(parse_pe_headers(&memory, buf.as_ptr() as usize).is_none());
}

#[test]
fn parse_pe_headers_returns_none_for_missing_pe_sig() {
    let mut buf = vec![0u8; 0x400];
    buf[0] = b'M';
    buf[1] = b'Z';
    let nt_offset: u32 = 0x80;
    buf[0x3C..0x40].copy_from_slice(&nt_offset.to_le_bytes());
    // No 'PE\0\0' planted → NT-sig check fails.
    let memory = MemoryRegion::new(buf.as_ptr() as usize, &buf);
    assert!(parse_pe_headers(&memory, buf.as_ptr() as usize).is_none());
}

#[test]
fn parse_pe_headers_walks_to_section_table() {
    let body = [0x90u8];
    let buf = synthetic_pe(&[(*b".text\0\0\0", 0x300, &body, IMAGE_SCN_MEM_EXECUTE)]);
    let memory = MemoryRegion::new(buf.as_ptr() as usize, &buf);
    let hdr = parse_pe_headers(&memory, buf.as_ptr() as usize).unwrap();
    assert_eq!(hdr.num_sections, 1);
    assert_eq!(hdr.module_base, buf.as_ptr() as usize);
    // Section table is at NT+4+20+opt_size = 0x80+24+0xF0 = 0x188.
    assert_eq!(hdr.section_table, buf.as_ptr() as usize + 0x80 + 24 + 0xF0);
}

#[test]
fn parse_pe_headers_accepts_unaligned_module_base() {
    let body = [0x90u8];
    let image = synthetic_pe(&[(*b".text\0\0\0", 0x300, &body, IMAGE_SCN_MEM_EXECUTE)]);
    let mut backing = vec![0u8; image.len() + 1];
    backing[1..].copy_from_slice(&image);

    let base = backing.as_ptr() as usize + 1;
    let memory = MemoryRegion::new(base, &backing[1..]);
    let hdr = parse_pe_headers(&memory, base).unwrap();
    assert_eq!(hdr.module_base, base);
    assert_eq!(hdr.section_table, base + 0x80 + 24 + 0xF0);
}

#[test]
fn parse_pe_headers_with_returns_none_for_zero_base() {
    let reader = SliceReader {
        base: 0x5000_0000,
        bytes: vec![0u8; 0x400],
    };
    assert!(parse_pe_headers_with(&reader, 0).is_none());
}

#[test]
fn parse_pe_headers_with_returns_none_for_missing_mz() {
    let reader = SliceReader {
        base: 0x5000_0000,
        bytes: vec![0u8; 0x400],
    };
    assert!(parse_pe_headers_with(&reader, reader.base).is_none());
}

#[test]
fn parse_pe_headers_with_returns_none_for_short_dos_header() {
    let reader = SliceReader {
        base: 0x5000_0000,
        bytes: vec![b'M', b'Z'],
    };
    assert!(parse_pe_headers_with(&reader, reader.base).is_none());
}

#[test]
fn parse_pe_headers_with_returns_none_for_missing_pe_sig() {
    let mut bytes = vec![0u8; 0x400];
    bytes[0] = b'M';
    bytes[1] = b'Z';
    let nt_offset: u32 = 0x80;
    bytes[0x3C..0x40].copy_from_slice(&nt_offset.to_le_bytes());
    let reader = SliceReader {
        base: 0x5000_0000,
        bytes,
    };
    assert!(parse_pe_headers_with(&reader, reader.base).is_none());
}

#[test]
fn parse_pe_headers_with_walks_to_section_table() {
    let body = [0x90u8];
    let reader = SliceReader {
        base: 0x5000_0000,
        bytes: synthetic_pe(&[(*b".text\0\0\0", 0x300, &body, IMAGE_SCN_MEM_EXECUTE)]),
    };
    let hdr = parse_pe_headers_with(&reader, reader.base).unwrap();
    assert_eq!(hdr.num_sections, 1);
    assert_eq!(hdr.module_base, reader.base);
    assert_eq!(hdr.section_table, reader.base + 0x80 + 24 + 0xF0);
}

// -- iter_sections / find_section -------------------------------------

#[test]
fn iter_sections_yields_every_section_in_order() {
    let body_a = [0x90u8, 0xC3];
    let body_b = [0xAAu8, 0xBB];
    let body_c = [0xCCu8];
    let buf = synthetic_pe(&[
        (*b".text\0\0\0", 0x300, &body_a, IMAGE_SCN_MEM_EXECUTE),
        (*b".rdata\0\0", 0x310, &body_b, IMAGE_SCN_MEM_READ),
        (
            *b".data\0\0\0",
            0x320,
            &body_c,
            IMAGE_SCN_MEM_READ | IMAGE_SCN_MEM_WRITE,
        ),
    ]);
    let base = buf.as_ptr() as usize;
    let memory = MemoryRegion::new(base, &buf);
    let secs: Vec<SectionInfo> = iter_sections(&memory, base).unwrap();
    assert_eq!(secs.len(), 3);
    assert_eq!(&secs[0].name, b".text\0\0\0");
    assert_eq!(secs[0].virtual_address, base + 0x300);
    assert_eq!(secs[0].virtual_size, body_a.len());
    assert!(secs[0].is_executable());
    assert_eq!(&secs[1].name, b".rdata\0\0");
    assert!(!secs[1].is_executable());
    assert_eq!(&secs[2].name, b".data\0\0\0");
    assert!(!secs[2].is_executable());
}

#[test]
fn iter_sections_returns_none_for_zero_base() {
    let memory = MemoryRegion::new(0, &[]);
    assert!(iter_sections(&memory, 0).is_none());
}

#[test]
fn iter_sections_returns_none_for_malformed_module() {
    let buf = vec![0u8; 0x400];
    let memory = MemoryRegion::new(buf.as_ptr() as usize, &buf);
    assert!(iter_sections(&memory, buf.as_ptr() as usize).is_none());
}

#[test]
fn find_section_prefix_matches_companion_sections() {
    let body = [0x90u8];
    let buf = synthetic_pe(&[
        (*b".text$mn", 0x300, &body, IMAGE_SCN_MEM_EXECUTE),
        (*b".data\0\0\0", 0x310, &body, 0),
    ]);
    let base = buf.as_ptr() as usize;
    let memory = MemoryRegion::new(base, &buf);
    // Prefix b".text" matches `.text$mn`.
    let s = find_section(&memory, base, b".text").unwrap();
    assert_eq!(&s.name, b".text$mn");
    assert_eq!(s.virtual_address, base + 0x300);
}

#[test]
fn find_section_returns_none_when_absent() {
    let body = [0x90u8];
    let buf = synthetic_pe(&[(*b".data\0\0\0", 0x300, &body, 0)]);
    let base = buf.as_ptr() as usize;
    let memory = MemoryRegion::new(base, &buf);
    assert!(find_section(&memory, base, b".text").is_none());
}

#[test]
fn find_section_exact_8_byte_name_disambiguates() {
    let body = [0x90u8];
    let buf = synthetic_pe(&[
        (*b".text\0\0\0", 0x300, &body, IMAGE_SCN_MEM_EXECUTE),
        (*b".text$mn", 0x310, &body, IMAGE_SCN_MEM_EXECUTE),
    ]);
    let base = buf.as_ptr() as usize;
    let memory = MemoryRegion::new(base, &buf);
    // Exact 8-byte match selects the second section.
    let s = find_section(&memory, base, b".text$mn").unwrap();
    assert_eq!(s.virtual_address, base + 0x310);
}

// -- text_section_bounds ----------------------------------------------

#[test]
fn text_section_bounds_finds_text() {
    let body = [0x90u8, 0xC3];
    let buf = synthetic_pe(&[(*b".text\0\0\0", 0x300, &body, IMAGE_SCN_MEM_EXECUTE)]);
    let base = buf.as_ptr() as usize;
    let memory = MemoryRegion::new(base, &buf);
    let (start, size) = text_section_bounds(&memory, base).unwrap();
    assert_eq!(start, base + 0x300);
    assert_eq!(size, body.len());
}

#[test]
fn text_section_bounds_rejects_missing_mz() {
    let buf = vec![0u8; 0x400];
    let memory = MemoryRegion::new(buf.as_ptr() as usize, &buf);
    assert!(text_section_bounds(&memory, buf.as_ptr() as usize).is_none());
}

#[test]
fn text_section_bounds_rejects_missing_pe_sig() {
    let mut buf = vec![0u8; 0x400];
    buf[0] = b'M';
    buf[1] = b'Z';
    let nt_offset: u32 = 0x80;
    buf[0x3C..0x40].copy_from_slice(&nt_offset.to_le_bytes());
    let memory = MemoryRegion::new(buf.as_ptr() as usize, &buf);
    assert!(text_section_bounds(&memory, buf.as_ptr() as usize).is_none());
}

#[test]
fn text_section_bounds_skips_non_text_sections() {
    let data_body = [0xAAu8, 0xBB];
    let text_body = [0x90u8, 0xC3];
    let buf = synthetic_pe(&[
        (*b".data\0\0\0", 0x300, &data_body, 0),
        (*b".text\0\0\0", 0x310, &text_body, IMAGE_SCN_MEM_EXECUTE),
    ]);
    let base = buf.as_ptr() as usize;
    let memory = MemoryRegion::new(base, &buf);
    let (start, size) = text_section_bounds(&memory, base).unwrap();
    assert_eq!(start, base + 0x310);
    assert_eq!(size, text_body.len());
}

#[test]
fn text_section_bounds_returns_none_when_no_text() {
    let body = [0xAAu8, 0xBB];
    let buf = synthetic_pe(&[(*b".data\0\0\0", 0x300, &body, 0)]);
    let memory = MemoryRegion::new(buf.as_ptr() as usize, &buf);
    assert!(text_section_bounds(&memory, buf.as_ptr() as usize).is_none());
}

#[test]
fn text_section_bounds_prefers_exact_text_over_prefixed_text_sections() {
    let prefixed_body = [0x11u8, 0x22];
    let text_body = [0xAAu8, 0xBB, 0xCC];
    let buf = synthetic_pe(&[
        (*b".text$mn", 0x300, &prefixed_body, IMAGE_SCN_MEM_EXECUTE),
        (SECTION_NAME_TEXT, 0x400, &text_body, IMAGE_SCN_MEM_EXECUTE),
    ]);
    let base = buf.as_ptr() as usize;
    let memory = MemoryRegion::new(base, &buf);

    assert_eq!(text_section_bounds(&memory, base), Some((base + 0x400, text_body.len())));
}

// -- exec_sections ----------------------------------------------------

#[test]
fn exec_sections_includes_only_executable() {
    let exec_body = [0x90u8, 0xC3];
    let data_body = [0xAAu8, 0xBB];
    let buf = synthetic_pe(&[
        (*b".text\0\0\0", 0x300, &exec_body, IMAGE_SCN_MEM_EXECUTE),
        (*b".data\0\0\0", 0x310, &data_body, 0),
    ]);
    let base = buf.as_ptr() as usize;
    let memory = MemoryRegion::new(base, &buf);
    let secs = exec_sections(&memory, base).unwrap();
    assert_eq!(secs.len(), 1);
    assert_eq!(secs[0], (base + 0x300, exec_body.len()));
}

#[test]
fn exec_sections_returns_multiple_when_multiple_exec() {
    let body_a = [0x90u8];
    let body_b = [0xC3u8];
    let buf = synthetic_pe(&[
        (*b".text\0\0\0", 0x300, &body_a, IMAGE_SCN_MEM_EXECUTE),
        (*b".text$mn", 0x310, &body_b, IMAGE_SCN_MEM_EXECUTE),
    ]);
    let base = buf.as_ptr() as usize;
    let memory = MemoryRegion::new(base, &buf);
    let secs = exec_sections(&memory, base).unwrap();
    assert_eq!(secs.len(), 2);
    assert_eq!(secs[0], (base + 0x300, body_a.len()));
    assert_eq!(secs[1], (base + 0x310, body_b.len()));
}

#[test]
fn exec_sections_rejects_missing_mz() {
    let buf = vec![0u8; 0x400];
    let memory = MemoryRegion::new(buf.as_ptr() as usize, &buf);
    assert!(exec_sections(&memory, buf.as_ptr() as usize).is_none());
}

#[test]
fn exec_sections_rejects_missing_pe_sig() {
    let mut buf = vec![0u8; 0x400];
    buf[0] = b'M';
    buf[1] = b'Z';
    let nt_offset: u32 = 0x80;
    buf[0x3C..0x40].copy_from_slice(&nt_offset.to_le_bytes());
    let memory = MemoryRegion::new(buf.as_ptr() as usize, &buf);
    assert!(exec_sections(&memory, buf.as_ptr() as usize).is_none());
}

#[test]
fn exec_sections_empty_when_no_exec_sections() {
    let body = [0xAAu8];
    let buf = synthetic_pe(&[(*b".data\0\0\0", 0x300, &body, 0)]);
    let memory = MemoryRegion::new(buf.as_ptr() as usize, &buf);
    let secs = exec_sections(&memory, buf.as_ptr() as usize).unwrap();
    assert!(secs.is_empty());
}

#[test]
fn iter_sections_with_and_helpers_work_for_remote_reader() {
    let exec_body = [0x90u8, 0xC3];
    let data_body = [0xAAu8, 0xBB];
    let reader = SliceReader {
        base: 0x5000_0000,
        bytes: synthetic_pe(&[
            (*b".text\0\0\0", 0x300, &exec_body, IMAGE_SCN_MEM_EXECUTE),
            (*b".data\0\0\0", 0x310, &data_body, IMAGE_SCN_MEM_READ),
        ]),
    };

    let sections = iter_sections_with(&reader, reader.base).unwrap();
    assert_eq!(sections.len(), 2);
    assert_eq!(sections[0].virtual_address, reader.base + 0x300);
    assert_eq!(
        find_section_with(&reader, reader.base, b".text")
            .unwrap()
            .virtual_address,
        reader.base + 0x300,
    );
    assert_eq!(
        text_section_bounds_with(&reader, reader.base),
        Some((reader.base + 0x300, exec_body.len())),
    );
    assert_eq!(
        exec_sections_with(&reader, reader.base),
        Some(vec![(reader.base + 0x300, exec_body.len())]),
    );
}

#[test]
fn iter_sections_with_returns_none_when_section_header_read_fails() {
    let body = [0x90u8];
    let mut bytes = synthetic_pe(&[(*b".text\0\0\0", 0x300, &body, IMAGE_SCN_MEM_EXECUTE)]);
    bytes.truncate(0x188 + 39);
    let reader = SliceReader {
        base: 0x5000_0000,
        bytes,
    };

    assert!(iter_sections_with(&reader, reader.base).is_none());
    assert!(find_section_with(&reader, reader.base, b".text").is_none());
    assert!(text_section_bounds_with(&reader, reader.base).is_none());
    assert!(exec_sections_with(&reader, reader.base).is_none());
}

#[test]
fn text_section_bounds_with_prefers_exact_text_over_prefixed_text_sections() {
    let prefixed_body = [0x11u8, 0x22];
    let text_body = [0xAAu8, 0xBB, 0xCC];
    let reader = SliceReader {
        base: 0x5000_0000,
        bytes: synthetic_pe(&[
            (*b".text$mn", 0x300, &prefixed_body, IMAGE_SCN_MEM_EXECUTE),
            (SECTION_NAME_TEXT, 0x400, &text_body, IMAGE_SCN_MEM_EXECUTE),
        ]),
    };

    assert_eq!(
        text_section_bounds_with(&reader, reader.base),
        Some((reader.base + 0x400, text_body.len())),
    );
}

#[test]
fn slice_reader_rejects_underflow_overflow_and_oob_reads() {
    let reader = SliceReader {
        base: 0x10,
        bytes: vec![0u8; 4],
    };
    let mut buf = [0u8; 2];

    assert!(reader.read_bytes(reader.base - 1, &mut buf).is_none());
    assert!(reader.read_bytes(reader.base + 3, &mut buf).is_none());

    let overflow_reader = SliceReader {
        base: 0,
        bytes: vec![0u8; 4],
    };
    assert!(overflow_reader.read_bytes(usize::MAX, &mut buf).is_none());
}

// -- module_size ------------------------------------------------------

#[test]
fn returns_size_of_image() {
    let body = [0x90u8, 0xC3];
    let buf = synthetic_pe(&[(*b".text\0\0\0", 0x300, &body, IMAGE_SCN_MEM_EXECUTE)]);
    let base = buf.as_ptr() as usize;
    let memory = MemoryRegion::new(base, &buf);
    // synthetic_pe writes SizeOfImage = buf.len().
    assert_eq!(module_size(&memory, base), Some(buf.len()));
}

#[test]
fn rejects_zero_base() {
    let memory = MemoryRegion::new(0, &[]);
    assert_eq!(module_size(&memory, 0), None);
}

#[test]
fn rejects_missing_mz() {
    let buf = vec![0u8; 0x400];
    let memory = MemoryRegion::new(buf.as_ptr() as usize, &buf);
    assert!(module_size(&memory, buf.as_ptr() as usize).is_none());
}

#[test]
fn rejects_missing_pe_sig() {
    let mut buf = vec![0u8; 0x400];
    buf[0] = b'M';
    buf[1] = b'Z';
    let nt_offset: u32 = 0x80;
    buf[0x3C..0x40].copy_from_slice(&nt_offset.to_le_bytes());
    let memory = MemoryRegion::new(buf.as_ptr() as usize, &buf);
    assert!(module_size(&memory, buf.as_ptr() as usize).is_none());
}

/// Read what we actually planted, not what `buf.len()` happens
/// to be. Catches off-by-one regressions in
/// `OPTIONAL_HEADER_SIZE_OF_IMAGE_OFFSET` that the
/// `returns_size_of_image` test wouldn't because the helper
/// writes the field at the same offset the reader uses.
#[test]
fn reads_actual_size_of_image_field() {
    let body = [0x90u8];
    let mut buf = synthetic_pe(&[(*b".text\0\0\0", 0x300, &body, IMAGE_SCN_MEM_EXECUTE)]);
    // OptionalHeader.SizeOfImage at NT + 24 + 56 (= 0x80 + 80).
    let soi_offset = 0x80 + 4 + 20 + 56;
    let sentinel: u32 = 0xDEAD_BEEF;
    buf[soi_offset..soi_offset + 4].copy_from_slice(&sentinel.to_le_bytes());
    let base = buf.as_ptr() as usize;
    let memory = MemoryRegion::new(base, &buf);
    assert_eq!(module_size(&memory, base), Some(0xDEAD_BEEF));
}

#[test]
fn reads_size_of_image_from_unaligned_module_base() {
    let body = [0x90u8];
    let image = synthetic_pe(&[(*b".text\0\0\0", 0x300, &body, IMAGE_SCN_MEM_EXECUTE)]);
    let mut backing = vec![0u8; image.len() + 1];
    backing[1..].copy_from_slice(&image);

    let base = backing.as_ptr() as usize + 1;
    let memory = MemoryRegion::new(base, &backing[1..]);
    assert_eq!(module_size(&memory, base), Some(image.len()));
}

#[test]
fn callable_via_public_re_export() {
    let body = [0x90u8];
    let buf = synthetic_pe(&[(*b".text\0\0\0", 0x300, &body, IMAGE_SCN_MEM_EXECUTE)]);
    let base = buf.as_ptr() as usize;
    let memory = MemoryRegion::new(base, &buf);
    assert_eq!(pe_sigscan::module_size(&memory, base), Some(buf.len()));
}

#[test]
fn module_size_with_reads_remote_size_of_image() {
    let body = [0x90u8];
    let bytes = synthetic_pe(&[(*b".text\0\0\0", 0x300, &body, IMAGE_SCN_MEM_EXECUTE)]);
    let expected = bytes.len();
    let reader = SliceReader {
        base: 0x5000_0000,
        bytes,
    };
    assert_eq!(module_size_with(&reader, reader.base), Some(expected));
}

#[test]
fn module_size_with_returns_none_when_size_of_image_read_is_truncated() {
    let body = [0x90u8];
    let mut bytes = synthetic_pe(&[(*b".text\0\0\0", 0x300, &body, IMAGE_SCN_MEM_EXECUTE)]);
    let size_of_image_offset = 0x80 + 24 + 56;
    bytes.truncate(size_of_image_offset + 3);
    let reader = SliceReader {
        base: 0x5000_0000,
        bytes,
    };

    assert!(module_size_with(&reader, reader.base).is_none());
}
