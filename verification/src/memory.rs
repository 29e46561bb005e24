//! Memory that the scanners read: the reader trait and a mapped region of bytes.
use vstd::prelude::*;

verus! {

/// A source of memory addressed by absolute address, such as another process.
///
/// A reader answers a request for `len` bytes at an address either with that many bytes or with
/// a refusal. [`bytes_at`](MemoryReader::bytes_at) stands for the answer: the same request gets
/// the same answer, and nothing is promised of which requests are answered.
pub trait MemoryReader {
    /// The bytes that a read of `len` bytes at `addr` delivers, or `None` where it is refused.
    ///
    /// A reader whose code is not verified has no need to define it: the default is some function
    /// of the reader and the request, of which nothing more is known.
    closed spec fn bytes_at(&self, addr: usize, len: nat) -> Option<Seq<u8>> {
        arbitrary::<spec_fn(&Self, usize, nat) -> Option<Seq<u8>>>()(self, addr, len)
    }

    /// Fill `buf` with the bytes at `addr`. On `None` the contents of `buf` are unspecified.
    fn read_bytes(&self, addr: usize, buf: &mut [u8]) -> (r: Option<()>)
        ensures
            final(buf)@.len() == old(buf)@.len(),
            r is Some <==> self.bytes_at(addr, old(buf)@.len()) is Some,
            r is Some ==> self.bytes_at(addr, old(buf)@.len()) == Some(final(buf)@),
    ;
}

/// A contiguous run of bytes mapped at a known address: the memory of a loaded module.
#[derive(Debug, Clone, Copy)]
pub struct MemoryRegion<'a> {
    base: usize,
    bytes: &'a [u8],
}

impl<'a> MemoryRegion<'a> {
    /// The region ends inside the address space.
    #[verifier::type_invariant]
    pub open spec fn ends_in_address_space(self) -> bool {
        self.base() + self.bytes().len() <= usize::MAX + 1
    }

    /// Address of the first byte.
    pub closed spec fn base(self) -> int {
        self.base as int
    }

    /// The mapped bytes, from the first address up.
    pub closed spec fn bytes(self) -> Seq<u8> {
        self.bytes@
    }

    /// The byte at an address, `None` where nothing is mapped.
    pub open spec fn byte_at(self, addr: int) -> Option<u8> {
        if self.base() <= addr < self.base() + self.bytes().len() {
            Some(self.bytes()[addr - self.base()])
        } else {
            None
        }
    }

    /// The bytes of the `size` addresses from `start` on, `None` where nothing is mapped.
    pub open spec fn window(self, start: int, size: int) -> Seq<Option<u8>> {
        Seq::new(size as nat, |k: int| self.byte_at(start + k))
    }

    /// Every address of `[addr, addr + len)` is mapped.
    pub open spec fn readable(self, addr: int, len: int) -> bool {
        self.base() <= addr && addr + len <= self.base() + self.bytes().len()
    }

    /// The region that maps `bytes` at `base`.
    pub fn new(base: usize, bytes: &'a [u8]) -> (r: Self)
        requires
            base + bytes@.len() <= usize::MAX + 1,
        ensures
            r.base() == base,
            r.bytes() == bytes@,
    {
        MemoryRegion { base, bytes }
    }

    /// Address of the first byte.
    pub fn base_address(&self) -> (r: usize)
        ensures
            r == self.base(),
    {
        self.base
    }

    /// The mapped bytes.
    pub fn as_bytes(&self) -> (r: &'a [u8])
        ensures
            r@ == self.bytes(),
            self.base() + r@.len() <= usize::MAX + 1,
    {
        proof {
            use_type_invariant(self);
        }
        self.bytes
    }

    /// The byte at `addr`, `None` where nothing is mapped.
    pub fn read_byte(&self, addr: usize) -> (r: Option<u8>)
        ensures
            r == self.byte_at(addr as int),
    {
        if addr >= self.base && addr - self.base < self.bytes.len() {
            Some(self.bytes[addr - self.base])
        } else {
            None
        }
    }
}

impl<'a> MemoryReader for MemoryRegion<'a> {
    open spec fn bytes_at(&self, addr: usize, len: nat) -> Option<Seq<u8>> {
        if self.readable(addr as int, len as int) {
            Some(self.bytes().subrange(addr - self.base(), addr - self.base() + len))
        } else {
            None
        }
    }

    fn read_bytes(&self, addr: usize, buf: &mut [u8]) -> (r: Option<()>) {
        if addr < self.base {
            return None;
        }
        let start: usize = addr - self.base;
        let n: usize = buf.len();
        if start > self.bytes.len() || n > self.bytes.len() - start {
            return None;
        }
        let end: usize = start + n;
        let mut i: usize = 0;
        while i < n
            invariant
                i <= n,
                n == old(buf)@.len(),
                buf@.len() == n,
                end == start + n,
                end <= self.bytes@.len(),
                forall|j: int| 0 <= j < i ==> buf@[j] == self.bytes@[start + j],
            decreases n - i,
        {
            buf[i] = self.bytes[start + i];
            i = i + 1;
        }
        assert(buf@ =~= self.bytes@.subrange(start as int, end as int));
        Some(())
    }
}

} // verus!
