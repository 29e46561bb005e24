//! Resolution of 32-bit relative displacements (`rel32`) inside matched x64 instructions.
//!
//! x64 encodes a RIP-relative address as a signed 32-bit offset from the address of the byte
//! behind the instruction.
//!
//! | Instruction          | Bytes                  | `rel32_offset` | `instr_len` |
//! | -------------------- | ---------------------- | -------------- | ----------- |
//! | `mov rax, [rip+d32]` | `48 8B 05 ?? ?? ?? ??` | 3              | 7           |
//! | `lea rax, [rip+d32]` | `48 8D 05 ?? ?? ?? ??` | 3              | 7           |
//! | `call rel32`         | `E8 ?? ?? ?? ??`       | 1              | 5           |
//! | `jmp rel32`          | `E9 ?? ?? ?? ??`       | 1              | 5           |
//! | `jcc rel32`          | `0F 8x ?? ?? ?? ??`    | 2              | 6           |
use vstd::arithmetic::div_mod;
use vstd::prelude::*;

use crate::endian;
use crate::endian::read_i32_le;
use crate::memory::MemoryRegion;

verus! {

/// `addr + disp`, wrapped around the ends of the address space.
pub open spec fn displaced(addr: usize, disp: int) -> int {
    (addr + disp) % (usize::MAX + 1)
}

/// The displacement in the four bytes at `rel32_addr`.
pub open spec fn displacement_at(memory: MemoryRegion<'_>, rel32_addr: usize) -> int {
    endian::le_i32(memory.bytes(), rel32_addr - memory.base())
}

/// `addr + disp`, wrapped around the ends of the address space.
fn displace(addr: usize, disp: i32) -> (r: usize)
    ensures
        r == displaced(addr, disp as int),
{
    let ghost n = usize::MAX + 1;
    if disp >= 0 {
        let up: usize = disp as usize;
        assert((addr + up) % n == addr.wrapping_add(up)) by {
            if addr + up < n {
                div_mod::lemma_small_mod((addr + up) as nat, n as nat);
            } else {
                div_mod::lemma_mod_sub_multiples_vanish(addr + up, n);
                div_mod::lemma_small_mod((addr + up - n) as nat, n as nat);
            }
        }
        addr.wrapping_add(up)
    } else {
        let down: usize = (-(disp as i64)) as usize;
        assert((addr - down) % n == addr.wrapping_sub(down)) by {
            if addr >= down {
                div_mod::lemma_small_mod((addr - down) as nat, n as nat);
            } else {
                div_mod::lemma_mod_add_multiples_vanish(addr - down, n);
                div_mod::lemma_small_mod((addr - down + n) as nat, n as nat);
            }
        }
        addr.wrapping_sub(down)
    }
}

/// Read the signed 32-bit displacement at `rel32_addr` and add it to `next_ip`, the address of
/// the byte behind the instruction. The sum wraps around the ends of the address space.
pub fn resolve_rel32(memory: &MemoryRegion<'_>, rel32_addr: usize, next_ip: usize) -> (r: usize)
    requires
        memory.readable(rel32_addr as int, 4),
    ensures
        r == displaced(next_ip, displacement_at(*memory, rel32_addr)),
{
    let offset: usize = rel32_addr - memory.base_address();
    let disp: i32 = read_i32_le(memory.as_bytes(), offset);
    displace(next_ip, disp)
}

/// Resolve the displacement `rel32_offset` bytes into the instruction of `instr_len` bytes at
/// `match_addr`.
pub fn resolve_rel32_at(
    memory: &MemoryRegion<'_>,
    match_addr: usize,
    rel32_offset: usize,
    instr_len: usize,
) -> (r: usize)
    requires
        match_addr + instr_len <= usize::MAX,
        memory.readable(match_addr + rel32_offset, 4),
    ensures
        r == displaced(
            (match_addr + instr_len) as usize,
            displacement_at(*memory, (match_addr + rel32_offset) as usize),
        ),
{
    proof {
        use_type_invariant(memory);
    }
    resolve_rel32(memory, match_addr + rel32_offset, match_addr + instr_len)
}

/// Read a signed 32-bit little-endian displacement from a slice, `None` if the four bytes at
/// `offset` do not lie in it.
pub fn read_rel32(bytes: &[u8], offset: usize) -> (r: Option<i32>)
    ensures
        match r {
            Some(disp) => offset + 4 <= bytes@.len() && disp == endian::le_i32(
                bytes@,
                offset as int,
            ),
            None => offset + 4 > bytes@.len(),
        },
{
    let len: usize = bytes.len();
    let end: usize = offset.checked_add(4)?;
    if end > len {
        return None;
    }
    Some(read_i32_le(bytes, offset))
}

/// A displacement read from the bytes of mapped memory as a slice is the one that is resolved
/// there.
pub proof fn a_slice_holds_the_same_displacement(
    memory: MemoryRegion<'_>,
    start: usize,
    len: int,
    offset: int,
)
    requires
        memory.ends_in_address_space(),
        memory.readable(start as int, len),
        0 <= offset,
        offset + 4 <= len,
    ensures
        endian::le_i32(
            memory.bytes().subrange(start - memory.base(), start - memory.base() + len),
            offset,
        ) == displacement_at(memory, (start + offset) as usize),
{
}

/// Inside the address space the target of a displacement is the plain sum.
pub proof fn displacement_is_relative_to_next_ip(next_ip: usize, disp: int)
    requires
        0 <= next_ip + disp <= usize::MAX,
    ensures
        displaced(next_ip, disp) == next_ip + disp,
{
    div_mod::lemma_small_mod((next_ip + disp) as nat, (usize::MAX + 1) as nat);
}

} // verus!
