//! PE (Portable Executable) header walking.
//!
//! Everything here turns a module base into section ranges. The fields are found at the offsets
//! that the PE format fixes:
//!
//! - `IMAGE_DOS_HEADER`: `e_magic` (`MZ`) at +0, `e_lfanew`, the offset of the NT headers, at
//!   +0x3C;
//! - NT headers: `Signature` (`PE\0\0`) at +0, `NumberOfSections` at +4+2,
//!   `SizeOfOptionalHeader` at +4+16, the optional header at +24, the section table behind it;
//! - `IMAGE_OPTIONAL_HEADER`: `SizeOfImage` at +56, in PE32 and PE32+ alike;
//! - `IMAGE_SECTION_HEADER`, 40 bytes: `Name` at +0, `VirtualSize` at +8, `VirtualAddress` at
//!   +12, `Characteristics` at +36.
//!
//! Headers are malformed when a magic is wrong, when a field cannot be read, or when an address
//! computed from them lies past the end of the address space.
use vstd::prelude::*;

use crate::endian;
use crate::endian::{read_u16_le, read_u32_le};
use crate::memory::{MemoryReader, MemoryRegion};

verus! {

/// `IMAGE_SCN_MEM_EXECUTE`: the section can be executed as code.
pub const IMAGE_SCN_MEM_EXECUTE: u32 = 0x2000_0000;

/// `IMAGE_SCN_MEM_READ`: the section is readable.
pub const IMAGE_SCN_MEM_READ: u32 = 0x4000_0000;

/// `IMAGE_SCN_MEM_WRITE`: the section is writable.
pub const IMAGE_SCN_MEM_WRITE: u32 = 0x8000_0000;

/// `IMAGE_DOS_HEADER.e_magic`: `MZ` little-endian.
pub const DOS_MAGIC_MZ: u16 = 0x5A4D;

/// `IMAGE_NT_HEADERS.Signature`: `PE\0\0` little-endian.
pub const NT_SIGNATURE_PE: u32 = 0x0000_4550;

/// `IMAGE_SECTION_HEADER.Name` of the section named `.text`.
pub const SECTION_NAME_TEXT: [u8; 8] = [0x2E, 0x74, 0x65, 0x78, 0x74, 0x00, 0x00, 0x00];

/// Offset of `IMAGE_DOS_HEADER.e_lfanew`.
pub const DOS_E_LFANEW_OFFSET: usize = 0x3C;

/// Size of `IMAGE_FILE_HEADER` in bytes.
pub const FILE_HEADER_SIZE: usize = 20;

/// Size of one `IMAGE_SECTION_HEADER` in bytes.
pub const SECTION_HEADER_SIZE: usize = 40;

/// Offset of the optional header from the NT headers.
pub const OPTIONAL_HEADER_OFFSET: usize = 4 + FILE_HEADER_SIZE;

/// Offset of `SizeOfImage` in the optional header.
pub const OPTIONAL_HEADER_SIZE_OF_IMAGE_OFFSET: usize = 56;

/// Where the headers of a module put things.
#[derive(Debug, Clone, Copy)]
pub struct PeHeaders {
    /// Address that every virtual address is relative to.
    pub module_base: usize,
    /// Address of the NT headers.
    pub nt: usize,
    /// Address of the first section header.
    pub section_table: usize,
    /// `IMAGE_FILE_HEADER.NumberOfSections`.
    pub num_sections: usize,
}

/// One section of a loaded module.
#[derive(Debug, Clone, Copy, PartialEq, Eq)]
pub struct SectionInfo {
    /// The eight bytes of `IMAGE_SECTION_HEADER.Name`, padded with NUL.
    pub name: [u8; 8],
    /// Absolute address of the section.
    pub virtual_address: usize,
    /// `IMAGE_SECTION_HEADER.VirtualSize`.
    pub virtual_size: usize,
    /// `IMAGE_SECTION_HEADER.Characteristics`, the `IMAGE_SCN_*` flags.
    pub characteristics: u32,
}

/// What a read of `len` bytes at `addr` delivers; nothing past the end of the address space.
pub open spec fn read_at<R: MemoryReader>(reader: &R, addr: int, len: nat) -> Option<Seq<u8>> {
    if 0 <= addr <= usize::MAX {
        reader.bytes_at(addr as usize, len)
    } else {
        None
    }
}

/// The unsigned 16-bit field at `addr`.
pub open spec fn u16_at<R: MemoryReader>(reader: &R, addr: int) -> Option<int> {
    match read_at(reader, addr, 2) {
        Some(bytes) => Some(endian::le_u16(bytes, 0)),
        None => None,
    }
}

/// The unsigned 32-bit field at `addr`.
pub open spec fn u32_at<R: MemoryReader>(reader: &R, addr: int) -> Option<int> {
    match read_at(reader, addr, 4) {
        Some(bytes) => Some(endian::le_u32(bytes, 0)),
        None => None,
    }
}

/// The headers of the module at `module_base`, `None` if they are malformed.
pub open spec fn headers<R: MemoryReader>(reader: &R, module_base: usize) -> Option<PeHeaders> {
    if module_base == 0 || u16_at(reader, module_base as int) != Some(DOS_MAGIC_MZ as int) {
        None
    } else {
        match u32_at(reader, module_base + DOS_E_LFANEW_OFFSET) {
            None => None,
            Some(lfanew) => {
                let nt = module_base + lfanew;
                if u32_at(reader, nt) != Some(NT_SIGNATURE_PE as int) {
                    None
                } else {
                    match (u16_at(reader, nt + 4 + 2), u16_at(reader, nt + 4 + 16)) {
                        (Some(num_sections), Some(optional_size)) => {
                            let section_table = nt + OPTIONAL_HEADER_OFFSET + optional_size;
                            if section_table <= usize::MAX {
                                Some(
                                    PeHeaders {
                                        module_base,
                                        nt: nt as usize,
                                        section_table: section_table as usize,
                                        num_sections: num_sections as usize,
                                    },
                                )
                            } else {
                                None
                            }
                        },
                        _ => None,
                    }
                }
            },
        }
    }
}

/// The section that a section header describes, `None` if it begins past the end of the address
/// space.
pub open spec fn section_of_header(header: Seq<u8>, module_base: usize) -> Option<SectionInfo> {
    let virtual_address = module_base + endian::le_u32(header, 12);
    if virtual_address <= usize::MAX {
        Some(
            SectionInfo {
                name: [
                    header[0],
                    header[1],
                    header[2],
                    header[3],
                    header[4],
                    header[5],
                    header[6],
                    header[7],
                ],
                virtual_address: virtual_address as usize,
                virtual_size: endian::le_u32(header, 8) as usize,
                characteristics: endian::le_u32(header, 36) as u32,
            },
        )
    } else {
        None
    }
}

/// The section whose header is at `sec`.
pub open spec fn section_at<R: MemoryReader>(
    reader: &R,
    sec: int,
    module_base: usize,
) -> Option<SectionInfo> {
    match read_at(reader, sec, SECTION_HEADER_SIZE as nat) {
        Some(header) => section_of_header(header, module_base),
        None => None,
    }
}

/// Read an unsigned 16-bit field.
pub fn read_u16_with<R: MemoryReader>(reader: &R, addr: usize) -> (r: Option<u16>)
    ensures
        match r {
            Some(v) => u16_at(reader, addr as int) == Some(v as int),
            None => u16_at(reader, addr as int) is None,
        },
{
    let mut buf: [u8; 2] = [0; 2];
    match reader.read_bytes(addr, &mut buf) {
        Some(_) => Some(read_u16_le(&buf, 0)),
        None => None,
    }
}

/// Read an unsigned 32-bit field.
pub fn read_u32_with<R: MemoryReader>(reader: &R, addr: usize) -> (r: Option<u32>)
    ensures
        match r {
            Some(v) => u32_at(reader, addr as int) == Some(v as int),
            None => u32_at(reader, addr as int) is None,
        },
{
    let mut buf: [u8; 4] = [0; 4];
    match reader.read_bytes(addr, &mut buf) {
        Some(_) => Some(read_u32_le(&buf, 0)),
        None => None,
    }
}

/// Walk the headers of the module at `module_base` through a reader.
pub fn parse_pe_headers_with<R: MemoryReader>(reader: &R, module_base: usize) -> (r: Option<
    PeHeaders,
>)
    ensures
        r == headers(reader, module_base),
{
    if module_base == 0 {
        return None;
    }
    if read_u16_with(reader, module_base)? != DOS_MAGIC_MZ {
        return None;
    }
    let lfanew: u32 = read_u32_with(reader, module_base.checked_add(DOS_E_LFANEW_OFFSET)?)?;
    let nt: usize = module_base.checked_add(lfanew as usize)?;
    if read_u32_with(reader, nt)? != NT_SIGNATURE_PE {
        return None;
    }
    let num_sections: u16 = read_u16_with(reader, nt.checked_add(4 + 2)?)?;
    let optional_size: u16 = read_u16_with(reader, nt.checked_add(4 + 16)?)?;
    let section_table: usize = nt.checked_add(OPTIONAL_HEADER_OFFSET + optional_size as usize)?;
    Some(PeHeaders { module_base, nt, section_table, num_sections: num_sections as usize })
}

impl SectionInfo {
    /// The section can be executed as code.
    pub open spec fn executable(self) -> bool {
        self.characteristics & IMAGE_SCN_MEM_EXECUTE != 0
    }

    /// The section can be executed as code.
    pub fn is_executable(&self) -> (r: bool)
        ensures
            r == self.executable(),
    {
        self.characteristics & IMAGE_SCN_MEM_EXECUTE != 0
    }
}

/// Decode the section header at `sec` through a reader.
pub fn read_section_at_with<R: MemoryReader>(
    reader: &R,
    sec: usize,
    module_base: usize,
) -> (r: Option<SectionInfo>)
    ensures
        r == section_at(reader, sec as int, module_base),
{
    let mut header: [u8; 40] = [0; 40];
    if reader.read_bytes(sec, &mut header).is_none() {
        return None;
    }
    let name: [u8; 8] = [
        header[0],
        header[1],
        header[2],
        header[3],
        header[4],
        header[5],
        header[6],
        header[7],
    ];
    let virtual_size: u32 = read_u32_le(&header, 8);
    let virtual_address: u32 = read_u32_le(&header, 12);
    let characteristics: u32 = read_u32_le(&header, 36);
    match module_base.checked_add(virtual_address as usize) {
        Some(virtual_address) => Some(
            SectionInfo {
                name,
                virtual_address,
                virtual_size: virtual_size as usize,
                characteristics,
            },
        ),
        None => None,
    }
}

/// The section with the index `i` in the section table.
pub open spec fn nth_section<R: MemoryReader>(
    reader: &R,
    hdr: PeHeaders,
    i: int,
) -> Option<SectionInfo> {
    section_at(reader, hdr.section_table + i * SECTION_HEADER_SIZE, hdr.module_base)
}

/// Every section of the module at `module_base`, in the order of the section table, `None` if
/// the headers are malformed.
pub open spec fn sections<R: MemoryReader>(reader: &R, module_base: usize) -> Option<
    Seq<SectionInfo>,
> {
    match headers(reader, module_base) {
        None => None,
        Some(hdr) => if forall|i: int|
            0 <= i < hdr.num_sections ==> #[trigger] nth_section(reader, hdr, i) is Some {
            Some(
                Seq::new(hdr.num_sections as nat, |i: int| nth_section(reader, hdr, i)->0),
            )
        } else {
            None
        },
    }
}

/// The first section, from the index `i` on, whose name begins with `prefix`.
pub open spec fn first_named(sections: Seq<SectionInfo>, prefix: Seq<u8>, i: int) -> Option<
    SectionInfo,
>
    decreases sections.len() - i,
{
    if i >= sections.len() {
        None
    } else if prefix.is_prefix_of(sections[i].name@) {
        Some(sections[i])
    } else {
        first_named(sections, prefix, i + 1)
    }
}

/// The first section whose name begins with `prefix`, among all sections of the module.
pub open spec fn named_section<R: MemoryReader>(
    reader: &R,
    module_base: usize,
    prefix: Seq<u8>,
) -> Option<SectionInfo> {
    match sections(reader, module_base) {
        Some(all) => first_named(all, prefix, 0),
        None => None,
    }
}

/// The first section, from the index `i` of the section table on, whose name begins with
/// `prefix`. Nothing behind that section is looked at; a section header before it that cannot be
/// decoded ends the search without a result.
pub open spec fn first_named_in_table<R: MemoryReader>(
    reader: &R,
    hdr: PeHeaders,
    prefix: Seq<u8>,
    i: int,
) -> Option<SectionInfo>
    decreases hdr.num_sections - i,
{
    if i >= hdr.num_sections {
        None
    } else {
        match nth_section(reader, hdr, i) {
            None => None,
            Some(section) => if prefix.is_prefix_of(section.name@) {
                Some(section)
            } else {
                first_named_in_table(reader, hdr, prefix, i + 1)
            },
        }
    }
}

/// The first section of the table whose name begins with `prefix`.
pub open spec fn table_section<R: MemoryReader>(
    reader: &R,
    module_base: usize,
    prefix: Seq<u8>,
) -> Option<SectionInfo> {
    match headers(reader, module_base) {
        Some(hdr) => first_named_in_table(reader, hdr, prefix, 0),
        None => None,
    }
}

/// Address and size of a section.
pub open spec fn bounds(section: Option<SectionInfo>) -> Option<(usize, usize)> {
    match section {
        Some(section) => Some((section.virtual_address, section.virtual_size)),
        None => None,
    }
}

/// Address and size of each executable section, in order.
pub open spec fn executable_ranges(sections: Seq<SectionInfo>) -> Seq<(usize, usize)> {
    sections.filter(|section: SectionInfo| section.executable()).map_values(
        |section: SectionInfo| (section.virtual_address, section.virtual_size),
    )
}

/// `SizeOfImage` of the module at `module_base`.
pub open spec fn size_of_image<R: MemoryReader>(reader: &R, module_base: usize) -> Option<int> {
    match headers(reader, module_base) {
        Some(hdr) => u32_at(
            reader,
            hdr.nt + OPTIONAL_HEADER_OFFSET + OPTIONAL_HEADER_SIZE_OF_IMAGE_OFFSET,
        ),
        None => None,
    }
}

/// Decode the section header with the index `i` in the section table.
fn read_nth_section<R: MemoryReader>(reader: &R, hdr: &PeHeaders, i: usize) -> (r: Option<
    SectionInfo,
>)
    requires
        i <= u16::MAX,
    ensures
        r == nth_section(reader, *hdr, i as int),
{
    let sec: usize = hdr.section_table.checked_add(i * SECTION_HEADER_SIZE)?;
    read_section_at_with(reader, sec, hdr.module_base)
}

/// `name` begins with `prefix`.
fn name_starts_with(name: &[u8; 8], prefix: &[u8]) -> (r: bool)
    ensures
        r == prefix@.is_prefix_of(name@),
{
    if prefix.len() > 8 {
        return false;
    }
    let mut i: usize = 0;
    while i < prefix.len()
        invariant
            i <= prefix@.len() <= 8,
            forall|k: int| 0 <= k < i ==> name@[k] == prefix@[k],
        decreases prefix@.len() - i,
    {
        if name[i] != prefix[i] {
            assert(name@.subrange(0, prefix@.len() as int)[i as int] != prefix@[i as int]);
            return false;
        }
        i = i + 1;
    }
    assert(prefix@ =~= name@.subrange(0, prefix@.len() as int));
    true
}

/// Every section of the module at `module_base`, in the order of the section table.
pub fn iter_sections_with<R: MemoryReader>(reader: &R, module_base: usize) -> (r: Option<
    Vec<SectionInfo>,
>)
    ensures
        match r {
            Some(all) => sections(reader, module_base) == Some(all@),
            None => sections(reader, module_base) is None,
        },
{
    let hdr: PeHeaders = parse_pe_headers_with(reader, module_base)?;
    proof {
        lemma_section_count(reader, module_base);
    }
    let mut all: Vec<SectionInfo> = Vec::with_capacity(hdr.num_sections);
    let mut i: usize = 0;
    while i < hdr.num_sections
        invariant
            headers(reader, module_base) == Some(hdr),
            hdr.num_sections <= u16::MAX,
            i <= hdr.num_sections,
            all@.len() == i,
            forall|k: int|
                0 <= k < i ==> #[trigger] nth_section(reader, hdr, k) == Some(all@[k]),
        decreases hdr.num_sections - i,
    {
        match read_nth_section(reader, &hdr, i) {
            Some(section) => all.push(section),
            None => {
                assert(nth_section(reader, hdr, i as int) is None);
                return None;
            },
        }
        i = i + 1;
    }
    assert(all@ =~= Seq::new(
        hdr.num_sections as nat,
        |i: int| nth_section(reader, hdr, i)->0,
    ));
    Some(all)
}

/// The number of sections is a 16-bit field.
proof fn lemma_section_count<R: MemoryReader>(reader: &R, module_base: usize)
    ensures
        headers(reader, module_base) matches Some(hdr) ==> hdr.num_sections <= u16::MAX,
{
}

/// The first section whose name begins with `prefix`, all section headers being decoded first.
pub fn find_section_with<R: MemoryReader>(
    reader: &R,
    module_base: usize,
    prefix: &[u8],
) -> (r: Option<SectionInfo>)
    ensures
        r == named_section(reader, module_base, prefix@),
{
    let all: Vec<SectionInfo> = iter_sections_with(reader, module_base)?;
    let mut i: usize = 0;
    while i < all.len()
        invariant
            sections(reader, module_base) == Some(all@),
            i <= all@.len(),
            first_named(all@, prefix@, 0) == first_named(all@, prefix@, i as int),
        decreases all@.len() - i,
    {
        if name_starts_with(&all[i].name, prefix) {
            return Some(all[i]);
        }
        i = i + 1;
    }
    None
}

/// Address and size of every executable section, in the order of the section table.
pub fn exec_sections_with<R: MemoryReader>(reader: &R, module_base: usize) -> (r: Option<
    Vec<(usize, usize)>,
>)
    ensures
        match r {
            Some(ranges) => sections(reader, module_base) matches Some(all) && ranges@
                == executable_ranges(all),
            None => sections(reader, module_base) is None,
        },
{
    let all: Vec<SectionInfo> = iter_sections_with(reader, module_base)?;
    let mut ranges: Vec<(usize, usize)> = Vec::new();
    let mut i: usize = 0;
    proof {
        reveal(Seq::filter);
        assert(ranges@ =~= executable_ranges(all@.take(0)));
    }
    while i < all.len()
        invariant
            i <= all@.len(),
            ranges@ == executable_ranges(all@.take(i as int)),
        decreases all@.len() - i,
    {
        proof {
            reveal(Seq::filter);
            assert(all@.take(i + 1).drop_last() =~= all@.take(i as int));
        }
        if all[i].is_executable() {
            ranges.push((all[i].virtual_address, all[i].virtual_size));
        }
        assert(ranges@ =~= executable_ranges(all@.take(i + 1)));
        i = i + 1;
    }
    assert(all@.take(i as int) =~= all@);
    Some(ranges)
}

/// Address and size of the section named `.text`, all section headers being decoded first.
pub fn text_section_bounds_with<R: MemoryReader>(reader: &R, module_base: usize) -> (r: Option<
    (usize, usize),
>)
    ensures
        r == bounds(named_section(reader, module_base, SECTION_NAME_TEXT@)),
{
    let name: [u8; 8] = SECTION_NAME_TEXT;
    let section: SectionInfo = find_section_with(reader, module_base, &name)?;
    Some((section.virtual_address, section.virtual_size))
}

/// Read `IMAGE_OPTIONAL_HEADER.SizeOfImage`, the mapped size of the module in bytes, through a
/// reader.
pub fn module_size_with<R: MemoryReader>(reader: &R, module_base: usize) -> (r: Option<usize>)
    ensures
        match r {
            Some(size) => size_of_image(reader, module_base) == Some(size as int),
            None => size_of_image(reader, module_base) is None,
        },
{
    let hdr: PeHeaders = parse_pe_headers_with(reader, module_base)?;
    let field: usize = hdr.nt.checked_add(
        OPTIONAL_HEADER_OFFSET + OPTIONAL_HEADER_SIZE_OF_IMAGE_OFFSET,
    )?;
    match read_u32_with(reader, field) {
        Some(size) => Some(size as usize),
        None => None,
    }
}

/// Walk the headers of the module loaded at `module_base`.
pub fn parse_pe_headers(memory: &MemoryRegion<'_>, module_base: usize) -> (r: Option<PeHeaders>)
    ensures
        r == headers(memory, module_base),
{
    parse_pe_headers_with(memory, module_base)
}

/// Every section of the module loaded at `module_base`, in the order of the section table.
pub fn iter_sections(memory: &MemoryRegion<'_>, module_base: usize) -> (r: Option<
    Vec<SectionInfo>,
>)
    ensures
        match r {
            Some(all) => sections(memory, module_base) == Some(all@),
            None => sections(memory, module_base) is None,
        },
{
    iter_sections_with(memory, module_base)
}

/// The first section whose name begins with `prefix`: `.text` finds `.text`, `.text$mn` and
/// `.textbss`; all eight bytes of a name find that name alone. No section header behind the one
/// that is found is decoded.
pub fn find_section<R: MemoryReader>(memory: &R, module_base: usize, prefix: &[u8]) -> (r: Option<
    SectionInfo,
>)
    ensures
        r == table_section(memory, module_base, prefix@),
{
    let hdr: PeHeaders = parse_pe_headers_with(memory, module_base)?;
    proof {
        lemma_section_count(memory, module_base);
    }
    let mut i: usize = 0;
    while i < hdr.num_sections
        invariant
            headers(memory, module_base) == Some(hdr),
            hdr.num_sections <= u16::MAX,
            i <= hdr.num_sections,
            first_named_in_table(memory, hdr, prefix@, 0) == first_named_in_table(
                memory,
                hdr,
                prefix@,
                i as int,
            ),
        decreases hdr.num_sections - i,
    {
        let section: SectionInfo = read_nth_section(memory, &hdr, i)?;
        if name_starts_with(&section.name, prefix) {
            return Some(section);
        }
        i = i + 1;
    }
    None
}

/// Address and size of every executable section, in the order of the section table.
pub fn exec_sections(memory: &MemoryRegion<'_>, module_base: usize) -> (r: Option<
    Vec<(usize, usize)>,
>)
    ensures
        match r {
            Some(ranges) => sections(memory, module_base) matches Some(all) && ranges@
                == executable_ranges(all),
            None => sections(memory, module_base) is None,
        },
{
    exec_sections_with(memory, module_base)
}

/// Address and size of the section named `.text`.
pub fn text_section_bounds<R: MemoryReader>(memory: &R, module_base: usize) -> (r: Option<
    (usize, usize),
>)
    ensures
        r == bounds(table_section(memory, module_base, SECTION_NAME_TEXT@)),
{
    let name: [u8; 8] = SECTION_NAME_TEXT;
    let section: SectionInfo = find_section(memory, module_base, &name)?;
    Some((section.virtual_address, section.virtual_size))
}

/// Read `IMAGE_OPTIONAL_HEADER.SizeOfImage`, the mapped size in bytes of the module loaded at
/// `module_base`.
pub fn module_size(memory: &MemoryRegion<'_>, module_base: usize) -> (r: Option<usize>)
    ensures
        match r {
            Some(size) => size_of_image(memory, module_base) == Some(size as int),
            None => size_of_image(memory, module_base) is None,
        },
{
    module_size_with(memory, module_base)
}

/// Where every section header can be decoded, decoding them one by one until the section is found
/// gives the section that decoding all of them first gives.
pub proof fn finding_a_section_early_changes_nothing<R: MemoryReader>(
    reader: &R,
    module_base: usize,
    prefix: Seq<u8>,
)
    requires
        sections(reader, module_base) is Some,
    ensures
        table_section(reader, module_base, prefix) == named_section(reader, module_base, prefix),
{
    lemma_table_search(reader, module_base, prefix, 0);
}

/// The search of the section table and of the decoded sections agree from `i` on.
proof fn lemma_table_search<R: MemoryReader>(
    reader: &R,
    module_base: usize,
    prefix: Seq<u8>,
    i: int,
)
    requires
        sections(reader, module_base) is Some,
        0 <= i,
    ensures
        first_named_in_table(reader, headers(reader, module_base)->0, prefix, i) == first_named(
            sections(reader, module_base)->0,
            prefix,
            i,
        ),
    decreases headers(reader, module_base)->0.num_sections - i,
{
    let hdr = headers(reader, module_base)->0;
    if i < hdr.num_sections {
        assert(nth_section(reader, hdr, i) is Some);
        lemma_table_search(reader, module_base, prefix, i + 1);
    }
}

/// The section found is the first one of the table whose name begins with the prefix.
pub proof fn the_section_found_is_the_first_of_its_name<R: MemoryReader>(
    reader: &R,
    hdr: PeHeaders,
    prefix: Seq<u8>,
    i: int,
)
    requires
        0 <= i,
        first_named_in_table(reader, hdr, prefix, i) is Some,
    ensures
        exists|k: int|
            {
                &&& i <= k < hdr.num_sections
                &&& #[trigger] nth_section(reader, hdr, k) == first_named_in_table(
                    reader,
                    hdr,
                    prefix,
                    i,
                )
                &&& prefix.is_prefix_of(nth_section(reader, hdr, k)->0.name@)
                &&& forall|j: int|
                    i <= j < k ==> (#[trigger] nth_section(reader, hdr, j) matches Some(section)
                        && !prefix.is_prefix_of(section.name@))
            },
    decreases hdr.num_sections - i,
{
    let here = nth_section(reader, hdr, i)->0;
    if prefix.is_prefix_of(here.name@) {
        assert(nth_section(reader, hdr, i) == Some(here));
    } else {
        the_section_found_is_the_first_of_its_name(reader, hdr, prefix, i + 1);
        let k = choose|k: int|
            {
                &&& i + 1 <= k < hdr.num_sections
                &&& #[trigger] nth_section(reader, hdr, k) == first_named_in_table(
                    reader,
                    hdr,
                    prefix,
                    i + 1,
                )
                &&& prefix.is_prefix_of(nth_section(reader, hdr, k)->0.name@)
                &&& forall|j: int|
                    i + 1 <= j < k ==> (#[trigger] nth_section(reader, hdr, j) matches Some(section)
                        && !prefix.is_prefix_of(section.name@))
            };
        assert(i <= k && nth_section(reader, hdr, k) is Some);
    }
}

/// All eight bytes of a name find a section of exactly that name.
pub proof fn a_full_name_is_matched_exactly<R: MemoryReader>(
    reader: &R,
    module_base: usize,
    name: Seq<u8>,
)
    requires
        name.len() == 8,
    ensures
        table_section(reader, module_base, name) matches Some(section) ==> section.name@ == name,
        named_section(reader, module_base, name) matches Some(section) ==> section.name@ == name,
{
    if let Some(hdr) = headers(reader, module_base) {
        if let Some(section) = first_named_in_table(reader, hdr, name, 0) {
            the_section_found_is_the_first_of_its_name(reader, hdr, name, 0);
            assert(section.name@ =~= section.name@.subrange(0, 8));
        }
        if sections(reader, module_base) is Some {
            finding_a_section_early_changes_nothing(reader, module_base, name);
        }
    }
}

/// The executable ranges are those of the executable sections and of no others.
pub proof fn executable_ranges_are_those_of_executable_sections(
    all: Seq<SectionInfo>,
    range: (usize, usize),
)
    ensures
        executable_ranges(all).contains(range) <==> exists|i: int|
            0 <= i < all.len() && (#[trigger] all[i]).executable() && range == (
                all[i].virtual_address,
                all[i].virtual_size,
            ),
{
    let pred = |section: SectionInfo| section.executable();
    let kept = all.filter(pred);
    let ranges = executable_ranges(all);
    if ranges.contains(range) {
        let k = choose|k: int| 0 <= k < ranges.len() && ranges[k] == range;
        all.lemma_filter_pred(pred, k);
        assert(kept.contains(kept[k]));
        all.lemma_filter_contains_rev(pred, kept[k]);
        let i = choose|i: int| 0 <= i < all.len() && all[i] == kept[k];
        assert(all[i].executable());
    }
    if exists|i: int|
        0 <= i < all.len() && (#[trigger] all[i]).executable() && range == (
            all[i].virtual_address,
            all[i].virtual_size,
        ) {
        let i = choose|i: int|
            0 <= i < all.len() && (#[trigger] all[i]).executable() && range == (
                all[i].virtual_address,
                all[i].virtual_size,
            );
        all.lemma_filter_contains(pred, i);
        let k = choose|k: int| 0 <= k < kept.len() && kept[k] == all[i];
        assert(ranges[k] == range);
    }
}

} // verus!
