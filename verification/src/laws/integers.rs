//! Integers and displacements are read back as they are stored.
use vstd::arithmetic::div_mod;
use vstd::prelude::*;

use crate::endian::{read_i32_le, read_u16_le, read_u32_le};
use crate::instr::{read_rel32, resolve_rel32, resolve_rel32_at};
use crate::memory::MemoryRegion;

verus! {

/// The two bytes that store `n`, the lowest first.
pub open spec fn u16_bytes(n: int) -> Seq<u8> {
    seq![(n % 256) as u8, (n / 256) as u8]
}

/// The four bytes that store `n`, the lowest first.
pub open spec fn u32_bytes(n: int) -> Seq<u8> {
    seq![
        (n % 256) as u8,
        (n / 256 % 256) as u8,
        (n / 65536 % 256) as u8,
        (n / 16777216) as u8,
    ]
}

/// The four bytes that store the signed `d` in two's complement, the lowest first.
pub open spec fn i32_bytes(d: int) -> Seq<u8> {
    if d >= 0 {
        u32_bytes(d)
    } else {
        u32_bytes(d + 0x1_0000_0000)
    }
}

/// `bytes` holds `part` at `at`.
pub open spec fn holds(bytes: Seq<u8>, at: int, part: Seq<u8>) -> bool {
    0 <= at && at + part.len() <= bytes.len() && bytes.subrange(at, at + part.len()) == part
}

/// A sequence that holds a part has its bytes.
proof fn lemma_held_bytes(bytes: Seq<u8>, at: int, part: Seq<u8>)
    requires
        holds(bytes, at, part),
    ensures
        forall|k: int| 0 <= k < part.len() ==> bytes[at + k] == #[trigger] part[k],
{
    assert forall|k: int| 0 <= k < part.len() implies bytes[at + k] == #[trigger] part[k] by {
        assert(bytes.subrange(at, at + part.len())[k] == part[k]);
    }
}

/// Four bytes that store an integer give it back digit by digit.
pub proof fn lemma_digits_u32(n: int)
    requires
        0 <= n < 0x1_0000_0000,
    ensures
        ({
            let b = u32_bytes(n);
            n == b[0] + 0x100 * b[1] + 0x1_0000 * b[2] + 0x100_0000 * b[3]
        }),
{
}

/// A 16-bit integer is read back as it is stored, and no other bytes are read as it.
pub proof fn a_stored_u16_is_read_back(bytes: &[u8], at: usize, r: u16, n: int)
    requires
        call_ensures(read_u16_le, (bytes, at), r),
        0 <= n < 0x1_0000,
        at + 2 <= bytes@.len(),
    ensures
        holds(bytes@, at as int, u16_bytes(n)) <==> r == n,
{
    if holds(bytes@, at as int, u16_bytes(n)) {
        lemma_held_bytes(bytes@, at as int, u16_bytes(n));
        assert(bytes@[at + 0] == u16_bytes(n)[0]);
        assert(bytes@[at + 1] == u16_bytes(n)[1]);
    }
    if r == n {
        assert(bytes@.subrange(at as int, at + 2) =~= u16_bytes(n));
    }
}

/// A 32-bit integer is read back as it is stored, and no other bytes are read as it.
pub proof fn a_stored_u32_is_read_back(bytes: &[u8], at: usize, r: u32, n: int)
    requires
        call_ensures(read_u32_le, (bytes, at), r),
        0 <= n < 0x1_0000_0000,
        at + 4 <= bytes@.len(),
    ensures
        holds(bytes@, at as int, u32_bytes(n)) <==> r == n,
{
    lemma_digits_u32(n);
    if holds(bytes@, at as int, u32_bytes(n)) {
        lemma_held_bytes(bytes@, at as int, u32_bytes(n));
        assert(bytes@[at + 0] == u32_bytes(n)[0]);
        assert(bytes@[at + 1] == u32_bytes(n)[1]);
        assert(bytes@[at + 2] == u32_bytes(n)[2]);
        assert(bytes@[at + 3] == u32_bytes(n)[3]);
    }
    if r == n {
        assert(bytes@.subrange(at as int, at + 4) =~= u32_bytes(n));
    }
}

/// A signed 32-bit integer is read back as it is stored, and no other bytes are read as it.
pub proof fn a_stored_i32_is_read_back(bytes: &[u8], at: usize, r: i32, d: int)
    requires
        call_ensures(read_i32_le, (bytes, at), r),
        -0x8000_0000 <= d < 0x8000_0000,
        at + 4 <= bytes@.len(),
    ensures
        holds(bytes@, at as int, i32_bytes(d)) <==> r == d,
{
    let n = if d >= 0 {
        d
    } else {
        d + 0x1_0000_0000
    };
    lemma_digits_u32(n);
    if holds(bytes@, at as int, i32_bytes(d)) {
        lemma_held_bytes(bytes@, at as int, i32_bytes(d));
        assert(bytes@[at + 0] == u32_bytes(n)[0]);
        assert(bytes@[at + 1] == u32_bytes(n)[1]);
        assert(bytes@[at + 2] == u32_bytes(n)[2]);
        assert(bytes@[at + 3] == u32_bytes(n)[3]);
    }
    if r == d {
        assert(bytes@.subrange(at as int, at + 4) =~= i32_bytes(d));
    }
}

/// A displacement in a slice is read back as it is stored, no other bytes are read as it, and it
/// is read wherever its four bytes lie in the slice.
pub proof fn a_stored_displacement_is_read_back(
    bytes: &[u8],
    offset: usize,
    r: Option<i32>,
    d: i32,
)
    requires
        call_ensures(read_rel32, (bytes, offset), r),
    ensures
        holds(bytes@, offset as int, i32_bytes(d as int)) <==> r == Some(d),
        r is None <==> bytes@.len() < offset + 4,
{
    let n = if d >= 0 {
        d as int
    } else {
        d + 0x1_0000_0000
    };
    lemma_digits_u32(n);
    if holds(bytes@, offset as int, i32_bytes(d as int)) {
        lemma_held_bytes(bytes@, offset as int, i32_bytes(d as int));
        assert(bytes@[offset + 0] == u32_bytes(n)[0]);
        assert(bytes@[offset + 1] == u32_bytes(n)[1]);
        assert(bytes@[offset + 2] == u32_bytes(n)[2]);
        assert(bytes@[offset + 3] == u32_bytes(n)[3]);
    }
    if r == Some(d) {
        assert(bytes@.subrange(offset as int, offset + 4) =~= i32_bytes(d as int));
    }
}

/// `sum` moved by the size of the address space `turns` times.
pub open spec fn turned(sum: int, turns: int) -> int {
    sum + turns * (usize::MAX + 1)
}

/// `target` is `sum`, wrapped around the ends of the address space as often as it takes.
pub open spec fn is_target(target: usize, sum: int) -> bool {
    exists|turns: int| target == #[trigger] turned(sum, turns)
}

/// The displacement stored in memory is added to the address behind the instruction; only where
/// the sum leaves the address space does it wrap around.
pub proof fn a_stored_displacement_is_resolved(
    memory: &MemoryRegion<'_>,
    rel32_addr: usize,
    next_ip: usize,
    r: usize,
    d: int,
)
    requires
        call_ensures(resolve_rel32, (memory, rel32_addr, next_ip), r),
        -0x8000_0000 <= d < 0x8000_0000,
        holds(memory.bytes(), rel32_addr - memory.base(), i32_bytes(d)),
    ensures
        is_target(r, next_ip + d),
        0 <= next_ip + d <= usize::MAX ==> r == next_ip + d,
{
    let at = rel32_addr - memory.base();
    let bytes = memory.bytes();
    let n = if d >= 0 {
        d
    } else {
        d + 0x1_0000_0000
    };
    lemma_digits_u32(n);
    lemma_held_bytes(bytes, at, i32_bytes(d));
    assert(bytes[at + 0] == u32_bytes(n)[0]);
    assert(bytes[at + 1] == u32_bytes(n)[1]);
    assert(bytes[at + 2] == u32_bytes(n)[2]);
    assert(bytes[at + 3] == u32_bytes(n)[3]);
    lemma_wrapped(r, next_ip as int, d);
}

/// The remainder of a sum is the sum wrapped around.
proof fn lemma_wrapped(r: usize, next_ip: int, d: int)
    requires
        r == (next_ip + d) % (usize::MAX + 1),
    ensures
        is_target(r, next_ip + d),
        0 <= next_ip + d <= usize::MAX ==> r == next_ip + d,
{
    let sum = next_ip + d;
    let n = usize::MAX + 1;
    div_mod::lemma_fundamental_div_mod(sum, n);
    let turns = -(sum / n);
    assert(turns * n == -(n * (sum / n))) by (nonlinear_arith)
        requires
            turns == -(sum / n),
    ;
    assert(r == turned(sum, turns));
    if 0 <= sum <= usize::MAX {
        div_mod::lemma_small_mod(sum as nat, n as nat);
    }
}

/// The displacement stored `rel32_offset` bytes into an instruction is added to the address behind
/// it, `instr_len` bytes after its first.
pub proof fn a_matched_displacement_is_resolved(
    memory: &MemoryRegion<'_>,
    match_addr: usize,
    rel32_offset: usize,
    instr_len: usize,
    r: usize,
    d: int,
)
    requires
        call_ensures(resolve_rel32_at, (memory, match_addr, rel32_offset, instr_len), r),
        match_addr + rel32_offset <= usize::MAX,
        match_addr + instr_len <= usize::MAX,
        -0x8000_0000 <= d < 0x8000_0000,
        holds(memory.bytes(), match_addr + rel32_offset - memory.base(), i32_bytes(d)),
    ensures
        is_target(r, match_addr + instr_len + d),
        0 <= match_addr + instr_len + d <= usize::MAX ==> r == match_addr + instr_len + d,
{
    let at = match_addr + rel32_offset - memory.base();
    let bytes = memory.bytes();
    let n = if d >= 0 {
        d
    } else {
        d + 0x1_0000_0000
    };
    lemma_digits_u32(n);
    lemma_held_bytes(bytes, at, i32_bytes(d));
    assert(bytes[at + 0] == u32_bytes(n)[0]);
    assert(bytes[at + 1] == u32_bytes(n)[1]);
    assert(bytes[at + 2] == u32_bytes(n)[2]);
    assert(bytes[at + 3] == u32_bytes(n)[3]);
    lemma_wrapped(r, match_addr + instr_len, d);
}

} // verus!
