//! The headers of a module are decoded as they are stored, and its sections are scanned as they
//! are declared.
use vstd::prelude::*;

use crate::endian;
use crate::hits;
use crate::iter::{iter_in_exec_sections, iter_in_section, iter_in_text, Matches};
use crate::laws::integers;
use crate::laws::occurrences;
use crate::memory::{MemoryReader, MemoryRegion};
use crate::pe;
use crate::pe::{
    exec_sections, exec_sections_with, find_section, find_section_with, iter_sections,
    iter_sections_with, module_size, module_size_with, parse_pe_headers, parse_pe_headers_with,
    read_section_at_with, read_u16_with, read_u32_with, text_section_bounds,
    text_section_bounds_with, PeHeaders, SectionInfo,
};
use crate::scan::{
    count_in_exec_sections, count_in_section, count_in_text, find_in_exec_sections,
    find_in_section, find_in_text,
};

verus! {

/// The reader delivers `part` when as many bytes are read at `addr`.
pub open spec fn answers<R: MemoryReader>(reader: &R, addr: int, part: Seq<u8>) -> bool {
    0 <= addr <= usize::MAX && reader.bytes_at(addr as usize, part.len()) == Some(part)
}

/// The reader delivers as many bytes as are asked for, where it delivers any.
pub open spec fn delivers_in_full<R: MemoryReader>(reader: &R) -> bool {
    forall|addr: usize, len: nat|
        (#[trigger] reader.bytes_at(addr, len)) matches Some(bytes) ==> bytes.len() == len
}

/// Mapped memory delivers its bytes, exactly where all that are asked for are mapped.
pub proof fn mapped_bytes_are_delivered(memory: MemoryRegion<'_>, addr: int, part: Seq<u8>)
    requires
        0 <= addr <= usize::MAX,
        0 <= memory.base(),
    ensures
        answers(&memory, addr, part) <==> integers::holds(
            memory.bytes(),
            addr - memory.base(),
            part,
        ),
        delivers_in_full(&memory),
{
}

/// A module begins at `module_base`: the magics stand where they must, and the headers store
/// `lfanew`, the offset of the NT headers, `n`, the number of sections, and `optional_size`, the
/// size of the optional header.
pub open spec fn is_module<R: MemoryReader>(
    reader: &R,
    module_base: usize,
    lfanew: int,
    n: int,
    optional_size: int,
) -> bool {
    &&& module_base > 0
    &&& 0 <= lfanew < 0x1_0000_0000
    &&& 0 <= n < 0x1_0000
    &&& 0 <= optional_size < 0x1_0000
    &&& answers(reader, module_base as int, seq![0x4Du8, 0x5Au8])
    &&& answers(reader, module_base + 0x3C, integers::u32_bytes(lfanew))
    &&& answers(reader, module_base + lfanew, seq![0x50u8, 0x45u8, 0u8, 0u8])
    &&& answers(reader, module_base + lfanew + 6, integers::u16_bytes(n))
    &&& answers(reader, module_base + lfanew + 20, integers::u16_bytes(optional_size))
    &&& module_base + lfanew + 24 + optional_size <= usize::MAX
}

/// The 40 bytes of a section header store the section: its name, its size, its offset from the
/// module, and its flags.
pub open spec fn describes(header: Seq<u8>, module_base: usize, section: SectionInfo) -> bool {
    &&& header.len() == 40
    &&& section.virtual_size < 0x1_0000_0000
    &&& module_base <= section.virtual_address < module_base + 0x1_0000_0000
    &&& integers::holds(header, 0, section.name@)
    &&& integers::holds(header, 8, integers::u32_bytes(section.virtual_size as int))
    &&& integers::holds(
        header,
        12,
        integers::u32_bytes(section.virtual_address - module_base),
    )
    &&& integers::holds(header, 36, integers::u32_bytes(section.characteristics as int))
}

/// The header of the section is stored at `addr`.
pub open spec fn is_described<R: MemoryReader>(
    reader: &R,
    addr: int,
    module_base: usize,
    section: SectionInfo,
) -> bool {
    &&& 0 <= addr <= usize::MAX
    &&& reader.bytes_at(addr as usize, 40) matches Some(header) && describes(
        header,
        module_base,
        section,
    )
}

/// The first entries of the section table, which begins at `table`, store the sections `all`.
pub open spec fn has_sections<R: MemoryReader>(
    reader: &R,
    module_base: usize,
    table: int,
    all: Seq<SectionInfo>,
) -> bool {
    forall|k: int|
        0 <= k < all.len() ==> is_described(reader, table + 40 * k, module_base, #[trigger] all[k])
}

/// The name begins with the prefix.
pub open spec fn starts_with(name: Seq<u8>, prefix: Seq<u8>) -> bool {
    &&& prefix.len() <= name.len()
    &&& forall|j: int| 0 <= j < prefix.len() ==> name[j] == #[trigger] prefix[j]
}

/// The section `k` is the first of `all` whose name begins with the prefix.
pub open spec fn is_first_named(all: Seq<SectionInfo>, prefix: Seq<u8>, k: int) -> bool {
    &&& 0 <= k < all.len()
    &&& starts_with(all[k].name@, prefix)
    &&& forall|j: int| 0 <= j < k ==> !starts_with((#[trigger] all[j]).name@, prefix)
}

/// No section of `all` has a name that begins with the prefix.
pub open spec fn none_named(all: Seq<SectionInfo>, prefix: Seq<u8>) -> bool {
    forall|j: int| 0 <= j < all.len() ==> !starts_with((#[trigger] all[j]).name@, prefix)
}

/// The eight bytes of the name `.text`.
pub open spec fn text_name() -> Seq<u8> {
    seq![0x2Eu8, 0x74u8, 0x65u8, 0x78u8, 0x74u8, 0u8, 0u8, 0u8]
}

/// The section may be executed: bit 29 of its flags is set.
pub open spec fn is_code(section: SectionInfo) -> bool {
    (section.characteristics as int / 0x2000_0000) % 2 == 1
}

/// Address and size of the sections that may be executed, in order.
pub open spec fn code_ranges(all: Seq<SectionInfo>) -> Seq<(usize, usize)> {
    all.filter(|section: SectionInfo| is_code(section)).map_values(
        |section: SectionInfo| (section.virtual_address, section.virtual_size),
    )
}

/// Stored integers as the sum of their bytes.
proof fn lemma_u32_in(bytes: Seq<u8>, at: int, n: int)
    requires
        0 <= n < 0x1_0000_0000,
        0 <= at,
        at + 4 <= bytes.len(),
    ensures
        integers::holds(bytes, at, integers::u32_bytes(n)) <==> endian::le_u32(bytes, at) == n,
{
    integers::lemma_digits_u32(n);
    let part = integers::u32_bytes(n);
    let sub = bytes.subrange(at, at + 4);
    if sub == part {
        assert(sub[0] == part[0] && sub[1] == part[1] && sub[2] == part[2] && sub[3] == part[3]);
    }
    if endian::le_u32(bytes, at) == n {
        assert(sub =~= part);
    }
}

/// Stored integers as the sum of their bytes.
proof fn lemma_u16_in(bytes: Seq<u8>, n: int)
    requires
        0 <= n < 0x1_0000,
        bytes.len() == 2,
    ensures
        bytes == integers::u16_bytes(n) <==> endian::le_u16(bytes, 0) == n,
{
    let part = integers::u16_bytes(n);
    if bytes == part {
        assert(bytes[0] == part[0] && bytes[1] == part[1]);
    }
    if endian::le_u16(bytes, 0) == n {
        assert(bytes =~= part);
    }
}

/// The 16-bit field at an address.
proof fn lemma_u16_at<R: MemoryReader>(reader: &R, addr: int, n: int)
    requires
        0 <= n < 0x1_0000,
    ensures
        answers(reader, addr, integers::u16_bytes(n)) ==> pe::u16_at(reader, addr) == Some(n),
        delivers_in_full(reader) && pe::u16_at(reader, addr) == Some(n) ==> answers(
            reader,
            addr,
            integers::u16_bytes(n),
        ),
{
    if 0 <= addr <= usize::MAX {
        if let Some(bytes) = reader.bytes_at(addr as usize, 2) {
            if bytes.len() == 2 {
                lemma_u16_in(bytes, n);
            }
        }
    }
    assert(integers::u16_bytes(n).len() == 2);
}

/// The 32-bit field at an address.
proof fn lemma_u32_at<R: MemoryReader>(reader: &R, addr: int, n: int)
    requires
        0 <= n < 0x1_0000_0000,
    ensures
        answers(reader, addr, integers::u32_bytes(n)) ==> pe::u32_at(reader, addr) == Some(n),
        delivers_in_full(reader) && pe::u32_at(reader, addr) == Some(n) ==> answers(
            reader,
            addr,
            integers::u32_bytes(n),
        ),
{
    if 0 <= addr <= usize::MAX {
        if let Some(bytes) = reader.bytes_at(addr as usize, 4) {
            if bytes.len() == 4 {
                lemma_u32_in(bytes, 0, n);
                assert(bytes.subrange(0, 4) =~= bytes);
            }
        }
    }
    assert(integers::u32_bytes(n).len() == 4);
}

/// A stored field is read back, and only what is stored is read.
pub proof fn a_stored_field_is_read_back<R: MemoryReader>(
    reader: &R,
    addr: usize,
    r16: Option<u16>,
    r32: Option<u32>,
    n16: u16,
    n32: u32,
)
    requires
        delivers_in_full(reader),
        call_ensures(read_u16_with::<R>, (reader, addr), r16),
        call_ensures(read_u32_with::<R>, (reader, addr), r32),
    ensures
        answers(reader, addr as int, integers::u16_bytes(n16 as int)) <==> r16 == Some(n16),
        answers(reader, addr as int, integers::u32_bytes(n32 as int)) <==> r32 == Some(n32),
        r16 is None <==> reader.bytes_at(addr, 2) is None,
        r32 is None <==> reader.bytes_at(addr, 4) is None,
{
    lemma_u16_at(reader, addr as int, n16 as int);
    lemma_u32_at(reader, addr as int, n32 as int);
}

/// The magics as fields.
proof fn lemma_magics()
    ensures
        integers::u16_bytes(0x5A4D) == seq![0x4Du8, 0x5Au8],
        integers::u32_bytes(0x4550) == seq![0x50u8, 0x45u8, 0u8, 0u8],
{
    assert(integers::u16_bytes(0x5A4D) =~= seq![0x4Du8, 0x5Au8]);
    assert(integers::u32_bytes(0x4550) =~= seq![0x50u8, 0x45u8, 0u8, 0u8]);
}

/// The headers of a module are where they are stored.
proof fn lemma_headers<R: MemoryReader>(
    reader: &R,
    module_base: usize,
    lfanew: int,
    n: int,
    optional_size: int,
)
    requires
        is_module(reader, module_base, lfanew, n, optional_size),
    ensures
        pe::headers(reader, module_base) == Some(
            (PeHeaders {
                module_base,
                nt: (module_base + lfanew) as usize,
                section_table: (module_base + lfanew + 24 + optional_size) as usize,
                num_sections: n as usize,
            }),
        ),
{
    lemma_magics();
    let nt = module_base + lfanew;
    lemma_u16_at(reader, module_base as int, 0x5A4D);
    lemma_u32_at(reader, module_base + 0x3C, lfanew);
    lemma_u32_at(reader, nt, 0x4550);
    lemma_u16_at(reader, nt + 6, n);
    lemma_u16_at(reader, nt + 20, optional_size);
}

/// Where headers are found, there is a module.
proof fn lemma_headers_of_a_module<R: MemoryReader>(reader: &R, module_base: usize)
    requires
        delivers_in_full(reader),
        pe::headers(reader, module_base) is Some,
    ensures
        ({
            let hdr = pe::headers(reader, module_base)->0;
            &&& hdr.module_base == module_base
            &&& is_module(
                reader,
                module_base,
                hdr.nt - module_base,
                hdr.num_sections as int,
                hdr.section_table - hdr.nt - 24,
            )
        }),
{
    lemma_magics();
    lemma_u16_at(reader, module_base as int, 0x5A4D);
    let lfanew = pe::u32_at(reader, module_base + 0x3C)->0;
    lemma_u32_at(reader, module_base + 0x3C, lfanew);
    let nt = module_base + lfanew;
    lemma_u32_at(reader, nt, 0x4550);
    let n = pe::u16_at(reader, nt + 6)->0;
    let optional_size = pe::u16_at(reader, nt + 20)->0;
    lemma_u16_at(reader, nt + 6, n);
    lemma_u16_at(reader, nt + 20, optional_size);
}

/// The headers of a module are decoded as they are stored, through mapped memory and any other
/// reader alike; what is decoded is stored, so where there is no module nothing is decoded.
pub proof fn headers_are_decoded_as_stored<R: MemoryReader>(
    reader: &R,
    module_base: usize,
    r: Option<PeHeaders>,
    lfanew: int,
    n: int,
    optional_size: int,
)
    requires
        delivers_in_full(reader),
        call_ensures(parse_pe_headers_with::<R>, (reader, module_base), r),
    ensures
        is_module(reader, module_base, lfanew, n, optional_size) ==> {
            &&& r matches Some(hdr)
            &&& hdr.module_base == module_base
            &&& hdr.nt == module_base + lfanew
            &&& hdr.num_sections == n
            &&& hdr.section_table == module_base + lfanew + 24 + optional_size
        },
        r matches Some(hdr) ==> is_module(
            reader,
            module_base,
            hdr.nt - module_base,
            hdr.num_sections as int,
            hdr.section_table - hdr.nt - 24,
        ),
{
    if is_module(reader, module_base, lfanew, n, optional_size) {
        lemma_headers(reader, module_base, lfanew, n, optional_size);
    }
    if r is Some {
        lemma_headers_of_a_module(reader, module_base);
    }
}

/// A stored section is decoded, and only what is stored is decoded.
proof fn lemma_section<R: MemoryReader>(
    reader: &R,
    addr: int,
    module_base: usize,
    section: SectionInfo,
)
    ensures
        is_described(reader, addr, module_base, section) ==> pe::section_at(
            reader,
            addr,
            module_base,
        ) == Some(section),
        delivers_in_full(reader) && pe::section_at(reader, addr, module_base) == Some(section)
            ==> is_described(reader, addr, module_base, section),
{
    if 0 <= addr <= usize::MAX {
        if let Some(header) = reader.bytes_at(addr as usize, 40) {
            if header.len() == 40 {
                lemma_section_of(header, module_base, section);
            }
        }
    }
}

/// A section header is decoded as it is stored.
proof fn lemma_section_of(header: Seq<u8>, module_base: usize, section: SectionInfo)
    requires
        header.len() == 40,
    ensures
        describes(header, module_base, section) <==> pe::section_of_header(header, module_base)
            == Some(section),
{
    let size = endian::le_u32(header, 8);
    let offset = endian::le_u32(header, 12);
    let flags = endian::le_u32(header, 36);
    lemma_u32_in(header, 8, size);
    lemma_u32_in(header, 12, offset);
    lemma_u32_in(header, 36, flags);
    let name = header.subrange(0, 8);
    if describes(header, module_base, section) {
        lemma_u32_in(header, 8, section.virtual_size as int);
        lemma_u32_in(header, 12, section.virtual_address - module_base);
        lemma_u32_in(header, 36, section.characteristics as int);
        let decoded = pe::section_of_header(header, module_base)->0;
        assert forall|j: int| 0 <= j < 8 implies decoded.name@[j] == section.name@[j] by {
            assert(name[j] == section.name@[j]);
        }
        assert(decoded.name =~= section.name);
    }
    if pe::section_of_header(header, module_base) == Some(section) {
        assert(name =~= section.name@);
    }
}

/// A section is decoded as its header stores it, whatever its size, its place and its flags, and
/// no other header is decoded as it.
pub proof fn a_section_is_decoded_as_stored<R: MemoryReader>(
    reader: &R,
    addr: usize,
    module_base: usize,
    r: Option<SectionInfo>,
    section: SectionInfo,
)
    requires
        delivers_in_full(reader),
        call_ensures(read_section_at_with::<R>, (reader, addr, module_base), r),
    ensures
        is_described(reader, addr as int, module_base, section) <==> r == Some(section),
{
    lemma_section(reader, addr as int, module_base, section);
}

/// The sections of a module are those that its table stores.
proof fn lemma_sections<R: MemoryReader>(
    reader: &R,
    module_base: usize,
    lfanew: int,
    n: int,
    optional_size: int,
    all: Seq<SectionInfo>,
)
    requires
        is_module(reader, module_base, lfanew, n, optional_size),
        has_sections(reader, module_base, module_base + lfanew + 24 + optional_size, all),
        all.len() <= n,
    ensures
        forall|k: int|
            0 <= k < all.len() ==> #[trigger] pe::nth_section(
                reader,
                pe::headers(reader, module_base)->0,
                k,
            ) == Some(all[k]),
        all.len() == n ==> pe::sections(reader, module_base) == Some(all),
{
    lemma_headers(reader, module_base, lfanew, n, optional_size);
    let hdr = pe::headers(reader, module_base)->0;
    assert forall|k: int| 0 <= k < all.len() implies #[trigger] pe::nth_section(reader, hdr, k)
        == Some(all[k]) by {
        assert(is_described(
            reader,
            module_base + lfanew + 24 + optional_size + 40 * k,
            module_base,
            all[k],
        ));
        lemma_section(
            reader,
            module_base + lfanew + 24 + optional_size + 40 * k,
            module_base,
            all[k],
        );
    }
    if all.len() == n {
        assert(Seq::new(hdr.num_sections as nat, |i: int| pe::nth_section(reader, hdr, i)->0)
            =~= all);
    }
}

/// The sections that are decoded are stored in the table.
proof fn lemma_sections_stored<R: MemoryReader>(
    reader: &R,
    module_base: usize,
    all: Seq<SectionInfo>,
)
    requires
        delivers_in_full(reader),
        pe::sections(reader, module_base) == Some(all),
    ensures
        ({
            let hdr = pe::headers(reader, module_base)->0;
            &&& pe::headers(reader, module_base) is Some
            &&& all.len() == hdr.num_sections
            &&& has_sections(reader, module_base, hdr.section_table as int, all)
        }),
{
    let hdr = pe::headers(reader, module_base)->0;
    assert forall|k: int| 0 <= k < all.len() implies is_described(
        reader,
        hdr.section_table + 40 * k,
        module_base,
        #[trigger] all[k],
    ) by {
        assert(pe::nth_section(reader, hdr, k) is Some);
        assert(pe::nth_section(reader, hdr, k) == Some(all[k]));
        lemma_section(reader, hdr.section_table + 40 * k, module_base, all[k]);
    }
}

/// Every section of a module is decoded, however many there are, in the order of the table; what
/// is decoded is stored there.
pub proof fn sections_are_decoded_as_stored<R: MemoryReader>(
    reader: &R,
    module_base: usize,
    r: Option<Vec<SectionInfo>>,
    lfanew: int,
    optional_size: int,
    all: Seq<SectionInfo>,
)
    requires
        delivers_in_full(reader),
        call_ensures(iter_sections_with::<R>, (reader, module_base), r),
    ensures
        is_module(reader, module_base, lfanew, all.len() as int, optional_size) && has_sections(
            reader,
            module_base,
            module_base + lfanew + 24 + optional_size,
            all,
        ) ==> (r matches Some(sections) && sections@ == all),
        r matches Some(sections) ==> exists|l: int, o: int|
            #![trigger is_module(reader, module_base, l, sections@.len() as int, o)]
            is_module(reader, module_base, l, sections@.len() as int, o) && has_sections(
                reader,
                module_base,
                module_base + l + 24 + o,
                sections@,
            ),
{
    if is_module(reader, module_base, lfanew, all.len() as int, optional_size) && has_sections(
        reader,
        module_base,
        module_base + lfanew + 24 + optional_size,
        all,
    ) {
        lemma_sections(
            reader,
            module_base,
            lfanew,
            all.len() as int,
            optional_size,
            all,
        );
    }
    if let Some(sections) = r {
        lemma_sections_stored(reader, module_base, sections@);
        lemma_headers_of_a_module(reader, module_base);
        let hdr = pe::headers(reader, module_base)->0;
        assert(is_module(
            reader,
            module_base,
            hdr.nt - module_base,
            sections@.len() as int,
            hdr.section_table - hdr.nt - 24,
        ));
    }
}

/// A prefix of a name, byte by byte.
proof fn lemma_starts_with(name: Seq<u8>, prefix: Seq<u8>)
    ensures
        prefix.is_prefix_of(name) <==> starts_with(name, prefix),
{
    if starts_with(name, prefix) {
        assert(prefix =~= name.subrange(0, prefix.len() as int));
    }
    if prefix.is_prefix_of(name) {
        assert forall|j: int| 0 <= j < prefix.len() implies name[j] == #[trigger] prefix[j] by {
            assert(name.subrange(0, prefix.len() as int)[j] == prefix[j]);
        }
    }
}

/// The search of the table for a name.
proof fn lemma_search<R: MemoryReader>(
    reader: &R,
    hdr: PeHeaders,
    all: Seq<SectionInfo>,
    prefix: Seq<u8>,
    i: int,
    k: int,
)
    requires
        0 <= i <= k <= all.len() <= hdr.num_sections,
        forall|j: int|
            0 <= j < all.len() ==> #[trigger] pe::nth_section(reader, hdr, j) == Some(all[j]),
        k < all.len() ==> is_first_named(all, prefix, k),
        k == all.len() ==> none_named(all, prefix) && all.len() == hdr.num_sections,
    ensures
        pe::first_named_in_table(reader, hdr, prefix, i) == if k < all.len() {
            Some(all[k])
        } else {
            None
        },
    decreases k - i,
{
    if i < all.len() {
        lemma_starts_with(all[i].name@, prefix);
        assert(pe::nth_section(reader, hdr, i) == Some(all[i]));
        if i < k {
            assert(!starts_with(all[i].name@, prefix));
            lemma_search(reader, hdr, all, prefix, i + 1, k);
        }
    }
}

/// The search of all sections for a name.
proof fn lemma_search_all(all: Seq<SectionInfo>, prefix: Seq<u8>, i: int, k: int)
    requires
        0 <= i <= k <= all.len(),
        k < all.len() ==> is_first_named(all, prefix, k),
        k == all.len() ==> none_named(all, prefix),
    ensures
        pe::first_named(all, prefix, i) == if k < all.len() {
            Some(all[k])
        } else {
            None
        },
    decreases k - i,
{
    if i < all.len() {
        lemma_starts_with(all[i].name@, prefix);
        if i < k {
            assert(!starts_with(all[i].name@, prefix));
            lemma_search_all(all, prefix, i + 1, k);
        }
    }
}

/// The section found in the table is the first whose name begins with the prefix; the headers
/// behind it do not matter. There is none where no name does.
pub proof fn a_section_is_found_by_its_name<R: MemoryReader>(
    reader: &R,
    module_base: usize,
    prefix: &[u8],
    r: Option<SectionInfo>,
    lfanew: int,
    n: int,
    optional_size: int,
    all: Seq<SectionInfo>,
)
    requires
        call_ensures(find_section::<R>, (reader, module_base, prefix), r),
        is_module(reader, module_base, lfanew, n, optional_size),
        has_sections(reader, module_base, module_base + lfanew + 24 + optional_size, all),
        all.len() <= n,
    ensures
        forall|k: int| #[trigger] is_first_named(all, prefix@, k) ==> r == Some(all[k]),
        all.len() == n && none_named(all, prefix@) ==> r is None,
{
    lemma_headers(reader, module_base, lfanew, n, optional_size);
    lemma_sections(reader, module_base, lfanew, n, optional_size, all);
    let hdr = pe::headers(reader, module_base)->0;
    assert forall|k: int| #[trigger] is_first_named(all, prefix@, k) implies r == Some(all[k]) by {
        lemma_search(reader, hdr, all, prefix@, 0, k);
    }
    if all.len() == n && none_named(all, prefix@) {
        lemma_search(reader, hdr, all, prefix@, 0, all.len() as int);
    }
}

/// Decoding all headers first finds the same section, and needs all of them.
pub proof fn a_section_is_found_among_all<R: MemoryReader>(
    reader: &R,
    module_base: usize,
    prefix: &[u8],
    r: Option<SectionInfo>,
    all: Option<Vec<SectionInfo>>,
)
    requires
        call_ensures(find_section_with::<R>, (reader, module_base, prefix), r),
        call_ensures(iter_sections_with::<R>, (reader, module_base), all),
    ensures
        all is None ==> r is None,
        all matches Some(all) ==> {
            &&& forall|k: int| #[trigger] is_first_named(all@, prefix@, k) ==> r == Some(all@[k])
            &&& none_named(all@, prefix@) ==> r is None
        },
{
    if let Some(all) = all {
        assert forall|k: int| #[trigger] is_first_named(all@, prefix@, k) implies r == Some(
            all@[k],
        ) by {
            lemma_search_all(all@, prefix@, 0, k);
        }
        if none_named(all@, prefix@) {
            lemma_search_all(all@, prefix@, 0, all@.len() as int);
        }
    }
}

/// The bounds of `.text` are those of the section that is found by all eight bytes of that name.
pub proof fn text_is_the_section_of_that_name<R: MemoryReader>(
    reader: &R,
    module_base: usize,
    name: &[u8],
    section: Option<SectionInfo>,
    section_with: Option<SectionInfo>,
    r: Option<(usize, usize)>,
    r_with: Option<(usize, usize)>,
)
    requires
        name@ == text_name(),
        call_ensures(find_section::<R>, (reader, module_base, name), section),
        call_ensures(find_section_with::<R>, (reader, module_base, name), section_with),
        call_ensures(text_section_bounds::<R>, (reader, module_base), r),
        call_ensures(text_section_bounds_with::<R>, (reader, module_base), r_with),
    ensures
        section matches Some(s) ==> r == Some((s.virtual_address, s.virtual_size)),
        section is None ==> r is None,
        section_with matches Some(s) ==> r_with == Some((s.virtual_address, s.virtual_size)),
        section_with is None ==> r_with is None,
{
    assert(pe::SECTION_NAME_TEXT@ =~= text_name());
}

/// Bit 29 decides.
proof fn lemma_code_bit(flags: u32)
    ensures
        (flags & 0x2000_0000 != 0) <==> (flags as int / 0x2000_0000) % 2 == 1,
{
    assert((flags & 0x2000_0000 != 0) <==> (flags / 0x2000_0000) % 2 == 1) by (bit_vector);
}

/// A section is executable exactly if bit 29 of its flags is set, whatever the other bits are.
pub proof fn one_bit_makes_a_section_executable(section: SectionInfo, r: bool)
    requires
        call_ensures(SectionInfo::is_executable, (&section,), r),
    ensures
        r <==> (section.characteristics as int / 0x2000_0000) % 2 == 1,
{
    lemma_code_bit(section.characteristics);
}

/// The executable ranges are those of the sections with that bit.
proof fn lemma_code_ranges(all: Seq<SectionInfo>)
    ensures
        pe::executable_ranges(all) == code_ranges(all),
{
    let a = |section: SectionInfo| section.executable();
    let b = |section: SectionInfo| is_code(section);
    assert forall|section: SectionInfo| #[trigger] a(section) == b(section) by {
        lemma_code_bit(section.characteristics);
    }
    assert(a =~= b);
}

/// The executable ranges are the address and the size of each section with bit 29, in the order of
/// the table, and of no other.
pub proof fn executable_sections_are_listed<R: MemoryReader>(
    reader: &R,
    module_base: usize,
    r: Option<Vec<(usize, usize)>>,
    all: Option<Vec<SectionInfo>>,
)
    requires
        call_ensures(exec_sections_with::<R>, (reader, module_base), r),
        call_ensures(iter_sections_with::<R>, (reader, module_base), all),
    ensures
        all is None ==> r is None,
        all matches Some(all) ==> (r matches Some(ranges) && ranges@ == code_ranges(all@)),
{
    if let Some(all) = all {
        lemma_code_ranges(all@);
    }
}

/// The ranges of the sections that may be executed grow with the sections: one with bit 29 adds
/// its own behind the others, one without adds none.
pub proof fn one_section_more(all: Seq<SectionInfo>, section: SectionInfo)
    ensures
        code_ranges(Seq::empty()) == Seq::<(usize, usize)>::empty(),
        is_code(section) ==> code_ranges(all.push(section)) == code_ranges(all).push(
            (section.virtual_address, section.virtual_size),
        ),
        !is_code(section) ==> code_ranges(all.push(section)) == code_ranges(all),
{
    reveal(Seq::filter);
    assert(all.push(section).drop_last() =~= all);
    assert(code_ranges(Seq::empty()) =~= Seq::<(usize, usize)>::empty());
    if is_code(section) {
        assert(code_ranges(all.push(section)) =~= code_ranges(all).push(
            (section.virtual_address, section.virtual_size),
        ));
    }
}

/// The size of the image is read as it is stored, 80 bytes behind the NT headers, whatever it is;
/// nothing is read where there is no module or the field cannot be read.
pub proof fn the_size_of_the_image_is_read_as_stored<R: MemoryReader>(
    reader: &R,
    module_base: usize,
    r: Option<usize>,
    lfanew: int,
    n: int,
    optional_size: int,
    size: int,
)
    requires
        delivers_in_full(reader),
        call_ensures(module_size_with::<R>, (reader, module_base), r),
        0 <= size < 0x1_0000_0000,
    ensures
        is_module(reader, module_base, lfanew, n, optional_size) ==> {
            answers(reader, module_base + lfanew + 80, integers::u32_bytes(size)) <==> (
            r matches Some(read) && read == size)
        },
        r is Some ==> exists|l: int, m: int, o: int| is_module(reader, module_base, l, m, o),
        r matches Some(read) ==> read < 0x1_0000_0000,
{
    if is_module(reader, module_base, lfanew, n, optional_size) {
        lemma_headers(reader, module_base, lfanew, n, optional_size);
        lemma_u32_at(reader, module_base + lfanew + 80, size);
    }
    if r is Some {
        lemma_headers_of_a_module(reader, module_base);
        let hdr = pe::headers(reader, module_base)->0;
        assert(pe::u32_at(reader, hdr.nt + 80) is Some);
    }
}

/// Mapped memory is read as any other reader is.
pub proof fn mapped_memory_is_a_reader(
    memory: &MemoryRegion<'_>,
    module_base: usize,
    headers: (Option<PeHeaders>, Option<PeHeaders>),
    sections: (Option<Vec<SectionInfo>>, Option<Vec<SectionInfo>>),
    ranges: (Option<Vec<(usize, usize)>>, Option<Vec<(usize, usize)>>),
    size: (Option<usize>, Option<usize>),
)
    requires
        call_ensures(parse_pe_headers, (memory, module_base), headers.0),
        call_ensures(
            parse_pe_headers_with::<MemoryRegion<'_>>,
            (memory, module_base),
            headers.1,
        ),
        call_ensures(iter_sections, (memory, module_base), sections.0),
        call_ensures(iter_sections_with::<MemoryRegion<'_>>, (memory, module_base), sections.1),
        call_ensures(exec_sections, (memory, module_base), ranges.0),
        call_ensures(exec_sections_with::<MemoryRegion<'_>>, (memory, module_base), ranges.1),
        call_ensures(module_size, (memory, module_base), size.0),
        call_ensures(module_size_with::<MemoryRegion<'_>>, (memory, module_base), size.1),
    ensures
        headers.0 == headers.1,
        sections.0 is Some <==> sections.1 is Some,
        sections.0 is Some ==> sections.0->0@ == sections.1->0@,
        ranges.0 is Some <==> ranges.1 is Some,
        ranges.0 is Some ==> ranges.0->0@ == ranges.1->0@,
        size.0 == size.1,
{
}

/// What finding, counting and iterating give in the ranges.
pub open spec fn is_scanned(
    memory: MemoryRegion<'_>,
    ranges: Seq<(usize, usize)>,
    pattern: Seq<Option<u8>>,
    found: Option<usize>,
    count: usize,
    listed: Seq<usize>,
) -> bool {
    let places = occurrences::places_of(memory, ranges);
    &&& occurrences::is_found(places, pattern, found)
    &&& occurrences::is_counted(places, pattern, count)
    &&& (forall|k: int|
        0 <= k < ranges.len() ==> occurrences::has_literal(pattern) || (#[trigger] ranges[k]).0
            + ranges[k].1 <= usize::MAX + 1) ==> occurrences::is_listed(places, pattern, listed)
}

/// Scanning `.text` scans the first section of exactly that name, from its first byte to its last;
/// without such a section there is nothing to scan.
pub proof fn the_text_section_is_scanned<'a>(
    memory: &MemoryRegion<'a>,
    module_base: usize,
    pattern: &'a [Option<u8>],
    found: Option<usize>,
    count: usize,
    it: Matches<'a>,
    listed: Vec<usize>,
    lfanew: int,
    n: int,
    optional_size: int,
    all: Seq<SectionInfo>,
)
    requires
        occurrences::is_mapped(*memory),
        call_ensures(find_in_text, (memory, module_base, pattern), found),
        call_ensures(count_in_text, (memory, module_base, pattern), count),
        call_ensures(iter_in_text, (memory, module_base, pattern), it),
        call_ensures(Matches::collect, (it,), listed),
        is_module(memory, module_base, lfanew, n, optional_size),
        has_sections(memory, module_base, module_base + lfanew + 24 + optional_size, all),
        all.len() <= n,
    ensures
        forall|k: int| #[trigger]
            is_first_named(all, text_name(), k) ==> is_scanned(
                *memory,
                seq![(all[k].virtual_address, all[k].virtual_size)],
                pattern@,
                found,
                count,
                listed@,
            ),
        all.len() == n && none_named(all, text_name()) ==> found is None && count == 0
            && listed@.len() == 0,
{
    assert(pe::SECTION_NAME_TEXT@ =~= text_name());
    lemma_headers(memory, module_base, lfanew, n, optional_size);
    lemma_sections(memory, module_base, lfanew, n, optional_size, all);
    let hdr = pe::headers(memory, module_base)->0;
    let ranges = hits::text_ranges(*memory, module_base);
    assert forall|k: int| #[trigger] is_first_named(all, text_name(), k) implies is_scanned(
        *memory,
        seq![(all[k].virtual_address, all[k].virtual_size)],
        pattern@,
        found,
        count,
        listed@,
    ) by {
        lemma_search(memory, hdr, all, text_name(), 0, k);
        assert(ranges =~= seq![(all[k].virtual_address, all[k].virtual_size)]);
        occurrences::lemma_ranges(*memory, ranges, pattern@);
    }
    if all.len() == n && none_named(all, text_name()) {
        lemma_search(memory, hdr, all, text_name(), 0, all.len() as int);
        assert(ranges.len() == 0);
    }
}

/// Scanning a named section scans the first section whose name begins so, from its first byte to
/// its last; without such a section there is nothing to scan.
pub proof fn a_named_section_is_scanned<'a>(
    memory: &MemoryRegion<'a>,
    module_base: usize,
    name: &[u8],
    pattern: &'a [Option<u8>],
    found: Option<usize>,
    count: usize,
    it: Matches<'a>,
    listed: Vec<usize>,
    lfanew: int,
    n: int,
    optional_size: int,
    all: Seq<SectionInfo>,
)
    requires
        occurrences::is_mapped(*memory),
        call_ensures(find_in_section, (memory, module_base, name, pattern), found),
        call_ensures(count_in_section, (memory, module_base, name, pattern), count),
        call_ensures(iter_in_section, (memory, module_base, name, pattern), it),
        call_ensures(Matches::collect, (it,), listed),
        is_module(memory, module_base, lfanew, n, optional_size),
        has_sections(memory, module_base, module_base + lfanew + 24 + optional_size, all),
        all.len() <= n,
    ensures
        forall|k: int| #[trigger]
            is_first_named(all, name@, k) ==> is_scanned(
                *memory,
                seq![(all[k].virtual_address, all[k].virtual_size)],
                pattern@,
                found,
                count,
                listed@,
            ),
        all.len() == n && none_named(all, name@) ==> found is None && count == 0
            && listed@.len() == 0,
{
    lemma_headers(memory, module_base, lfanew, n, optional_size);
    lemma_sections(memory, module_base, lfanew, n, optional_size, all);
    let hdr = pe::headers(memory, module_base)->0;
    let ranges = hits::named_ranges(*memory, module_base, name@);
    assert forall|k: int| #[trigger] is_first_named(all, name@, k) implies is_scanned(
        *memory,
        seq![(all[k].virtual_address, all[k].virtual_size)],
        pattern@,
        found,
        count,
        listed@,
    ) by {
        lemma_search(memory, hdr, all, name@, 0, k);
        assert(ranges =~= seq![(all[k].virtual_address, all[k].virtual_size)]);
        occurrences::lemma_ranges(*memory, ranges, pattern@);
    }
    if all.len() == n && none_named(all, name@) {
        lemma_search(memory, hdr, all, name@, 0, all.len() as int);
        assert(ranges.len() == 0);
    }
}

/// Scanning the executable sections scans every section with bit 29, from its first byte to its
/// last, in the order of the table, and no other.
pub proof fn the_executable_sections_are_scanned<'a>(
    memory: &MemoryRegion<'a>,
    module_base: usize,
    pattern: &'a [Option<u8>],
    found: Option<usize>,
    count: usize,
    it: Matches<'a>,
    listed: Vec<usize>,
    lfanew: int,
    optional_size: int,
    all: Seq<SectionInfo>,
)
    requires
        occurrences::is_mapped(*memory),
        call_ensures(find_in_exec_sections, (memory, module_base, pattern), found),
        call_ensures(count_in_exec_sections, (memory, module_base, pattern), count),
        call_ensures(iter_in_exec_sections, (memory, module_base, pattern), it),
        call_ensures(Matches::collect, (it,), listed),
        is_module(memory, module_base, lfanew, all.len() as int, optional_size),
        has_sections(memory, module_base, module_base + lfanew + 24 + optional_size, all),
    ensures
        is_scanned(*memory, code_ranges(all), pattern@, found, count, listed@),
{
    lemma_sections(memory, module_base, lfanew, all.len() as int, optional_size, all);
    lemma_code_ranges(all);
    occurrences::lemma_ranges(*memory, code_ranges(all), pattern@);
}

/// Where no module begins there is nothing to find, to count or to iterate over.
pub proof fn without_a_module_there_is_nothing<'a>(
    memory: &MemoryRegion<'a>,
    module_base: usize,
    name: &[u8],
    pattern: &'a [Option<u8>],
    found: (Option<usize>, Option<usize>, Option<usize>),
    count: (usize, usize, usize),
    it: (Matches<'a>, Matches<'a>, Matches<'a>),
    listed: (Vec<usize>, Vec<usize>, Vec<usize>),
)
    requires
        0 <= memory.base(),
        forall|l: int, n: int, o: int| !#[trigger] is_module(memory, module_base, l, n, o),
        call_ensures(find_in_text, (memory, module_base, pattern), found.0),
        call_ensures(find_in_exec_sections, (memory, module_base, pattern), found.1),
        call_ensures(find_in_section, (memory, module_base, name, pattern), found.2),
        call_ensures(count_in_text, (memory, module_base, pattern), count.0),
        call_ensures(count_in_exec_sections, (memory, module_base, pattern), count.1),
        call_ensures(count_in_section, (memory, module_base, name, pattern), count.2),
        call_ensures(iter_in_text, (memory, module_base, pattern), it.0),
        call_ensures(iter_in_exec_sections, (memory, module_base, pattern), it.1),
        call_ensures(iter_in_section, (memory, module_base, name, pattern), it.2),
        call_ensures(Matches::collect, (it.0,), listed.0),
        call_ensures(Matches::collect, (it.1,), listed.1),
        call_ensures(Matches::collect, (it.2,), listed.2),
    ensures
        found.0 is None && found.1 is None && found.2 is None,
        count.0 == 0 && count.1 == 0 && count.2 == 0,
        listed.0@.len() == 0 && listed.1@.len() == 0 && listed.2@.len() == 0,
{
    mapped_bytes_are_delivered(*memory, 0, Seq::empty());
    if pe::headers(memory, module_base) is Some {
        lemma_headers_of_a_module(memory, module_base);
    }
    hits::malformed_headers_leave_nothing_to_scan(*memory, module_base, name@);
}

} // verus!
