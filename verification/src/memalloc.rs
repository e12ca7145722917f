//! Fixed-size arena allocator backed by a byte-granularity occupancy bitmap.
//!
//! The arena is a contiguous byte region; a parallel boolean map records which
//! bytes belong to a live allocation. Allocation uses a first-fit scan whose
//! stride equals the requested block size, so a candidate window always starts
//! at a multiple of that size; this stepping (and the free runs it can miss)
//! is part of the contract. A release trusts the size the caller supplies: a
//! mismatched size clears exactly the bytes it covers, nothing else.

use vstd::prelude::*;
use vstd::string::*;

verus! {

/// Failures of the allocator: no fitting free window, or a release whose
/// address lies outside the arena.
#[derive(Clone, Copy, Debug, PartialEq, Eq, Structural)]
pub enum AllocError {
    OutOfMemory,
    InvalidAddress,
}

/// True when no byte of the window `[addr, addr + size)` is occupied.
pub open spec fn window_free(occ: Seq<bool>, addr: int, size: int) -> bool {
    forall|i: int| addr <= i < addr + size ==> !occ[i]
}

/// The occupancy map after setting the window `[addr, addr + size)` to `value`.
pub open spec fn mark(occ: Seq<bool>, addr: int, size: int, value: bool) -> Seq<bool> {
    Seq::new(occ.len(), |i: int| if addr <= i < addr + size { value } else { occ[i] })
}

/// The byte contents after writing `data` at offset `addr`.
pub open spec fn store(bytes: Seq<u8>, addr: int, data: Seq<u8>) -> Seq<u8> {
    Seq::new(
        bytes.len(),
        |i: int| if addr <= i < addr + data.len() { data[i - addr] } else { bytes[i] },
    )
}

/// The address the block-strided first-fit scan picks when it starts at
/// `start`: the first window of `size` free bytes among `start`,
/// `start + size`, `start + 2 * size`, ... that still fits in the arena.
pub open spec fn find_from(occ: Seq<bool>, size: int, start: int) -> Option<int>
    decreases occ.len() - start,
        when 0 <= start && 1 <= size
{
    if start + size > occ.len() {
        None
    } else if window_free(occ, start, size) {
        Some(start)
    } else {
        find_from(occ, size, start + size)
    }
}

/// The address a full scan (from address 0) picks for a block of `size` bytes.
pub open spec fn find_free(occ: Seq<bool>, size: int) -> Option<int> {
    find_from(occ, size, 0)
}

/// The arena: byte storage and its occupancy map, always of equal length.
pub struct MemAllocator {
    mem: Vec<u8>,
    mapped: Vec<bool>,
}

impl MemAllocator {
    /// The arena's byte contents.
    pub closed spec fn bytes(self) -> Seq<u8> {
        self.mem@
    }

    /// The occupancy map: `occupied()[i]` iff byte `i` is part of a live
    /// allocation.
    pub closed spec fn occupied(self) -> Seq<bool> {
        self.mapped@
    }

    /// The arena size in bytes.
    pub open spec fn size_spec(self) -> nat {
        self.occupied().len()
    }

    /// Structural invariant: the occupancy map is index-aligned with the bytes.
    pub open spec fn wf(self) -> bool {
        self.bytes().len() == self.occupied().len()
    }

    /// A fresh arena of `size` bytes: all zero, nothing occupied.
    pub fn new(size: usize) -> (r: MemAllocator)
        ensures
            r.wf(),
            r.size_spec() == size,
            forall|i: int| 0 <= i < size ==> !r.occupied()[i],
            forall|i: int| 0 <= i < size ==> r.bytes()[i] == 0u8,
    {
        let mut mem: Vec<u8> = Vec::new();
        let mut mapped: Vec<bool> = Vec::new();
        let mut n: usize = 0;
        while n < size
            invariant
                n <= size,
                mem@.len() == n,
                mapped@.len() == n,
                forall|i: int| 0 <= i < n ==> !mapped@[i],
                forall|i: int| 0 <= i < n ==> mem@[i] == 0u8,
            decreases size - n,
        {
            mem.push(0u8);
            mapped.push(false);
            n = n + 1;
        }
        MemAllocator { mem, mapped }
    }

    /// The arena size in bytes.
    pub fn size(&self) -> (r: usize)
        ensures
            r == self.size_spec(),
    {
        self.mapped.len()
    }

    /// Read one arena byte.
    pub fn byte_at(&self, i: usize) -> (r: u8)
        requires
            self.wf(),
            i < self.size_spec(),
        ensures
            r == self.bytes()[i as int],
    {
        self.mem[i]
    }

    /// Read one occupancy flag.
    pub fn occupied_at(&self, i: usize) -> (r: bool)
        requires
            i < self.size_spec(),
        ensures
            r == self.occupied()[i as int],
    {
        self.mapped[i]
    }

    /// Write one arena byte; occupancy is untouched.
    pub fn set_byte(&mut self, i: usize, value: u8)
        requires
            old(self).wf(),
            i < old(self).size_spec(),
        ensures
            final(self).wf(),
            final(self).occupied() == old(self).occupied(),
            final(self).bytes() == old(self).bytes().update(i as int, value),
    {
        self.mem.set(i, value);
    }

    /// True iff no byte of `[addr, addr + size)` is occupied.
    fn window_is_free(&self, addr: usize, size: usize) -> (r: bool)
        requires
            self.wf(),
            addr + size <= self.size_spec(),
        ensures
            r == window_free(self.occupied(), addr as int, size as int),
    {
        let total = self.mapped.len();
        let mut j: usize = 0;
        while j < size
            invariant
                self.wf(),
                addr + size <= self.size_spec(),
                self.size_spec() == total,
                j <= size,
                forall|i: int| addr <= i < addr + j ==> !self.occupied()[i],
            decreases size - j,
        {
            if self.mapped[addr + j] {
                return false;
            }
            j = j + 1;
        }
        true
    }

    /// First-fit, block-strided scan: test the window at address 0, then at
    /// `block_size`, `2 * block_size`, ..., and return the first free one.
    /// Because the scan advances by the block size rather than by one byte, a
    /// free run that does not start at a multiple of `block_size` is missed;
    /// that limitation is deliberate and pinned down by `find_free`.
    pub fn find_free_block(&self, block_size: usize) -> (r: Result<usize, AllocError>)
        requires
            self.wf(),
            block_size >= 1,
        ensures
            match r {
                Ok(addr) => find_free(self.occupied(), block_size as int) == Some(addr as int),
                Err(e) => e == AllocError::OutOfMemory && find_free(
                    self.occupied(),
                    block_size as int,
                ) is None,
            },
    {
        let size = self.mapped.len();
        if block_size > size {
            return Err(AllocError::OutOfMemory);
        }
        let mut address: usize = 0;
        while address <= size - block_size
            invariant
                self.wf(),
                size == self.size_spec(),
                1 <= block_size <= size,
                find_free(self.occupied(), block_size as int) == find_from(
                    self.occupied(),
                    block_size as int,
                    address as int,
                ),
            decreases size - address,
        {
            if self.window_is_free(address, block_size) {
                return Ok(address);
            }
            address = address + block_size;
        }
        Err(AllocError::OutOfMemory)
    }

    /// Allocate `size` contiguous bytes. On success the returned address is
    /// the one the block-strided scan picks, its window was free and is now
    /// occupied, and nothing else changes; on `OutOfMemory` the arena is
    /// untouched and the scan finds no window.
    pub fn malloc(&mut self, size: usize) -> (r: Result<usize, AllocError>)
        requires
            old(self).wf(),
            size >= 1,
        ensures
            final(self).wf(),
            final(self).size_spec() == old(self).size_spec(),
            final(self).bytes() == old(self).bytes(),
            match r {
                Ok(addr) => {
                    &&& find_free(old(self).occupied(), size as int) == Some(addr as int)
                    &&& addr + size <= old(self).size_spec()
                    &&& window_free(old(self).occupied(), addr as int, size as int)
                    &&& final(self).occupied() == mark(
                        old(self).occupied(),
                        addr as int,
                        size as int,
                        true,
                    )
                },
                Err(e) => {
                    &&& e == AllocError::OutOfMemory
                    &&& find_free(old(self).occupied(), size as int) is None
                    &&& final(self).occupied() == old(self).occupied()
                },
            },
    {
        let address = match self.find_free_block(size) {
            Ok(a) => a,
            Err(e) => {
                return Err(e);
            },
        };
        proof {
            lemma_find_from_fits(self.occupied(), size as int, 0);
        }
        let total = self.mapped.len();
        let mut j: usize = 0;
        while j < size
            invariant
                self.wf(),
                self.size_spec() == total,
                self.size_spec() == old(self).size_spec(),
                self.bytes() == old(self).bytes(),
                j <= size,
                address + size <= self.size_spec(),
                forall|i: int|
                    0 <= i < self.size_spec() ==> self.occupied()[i] == (if address <= i < address
                        + j {
                        true
                    } else {
                        old(self).occupied()[i]
                    }),
            decreases size - j,
        {
            self.mapped.set(address + j, true);
            j = j + 1;
        }
        proof {
            assert(self.occupied() =~= mark(
                old(self).occupied(),
                address as int,
                size as int,
                true,
            ));
        }
        Ok(address)
    }

    /// Release `size` bytes at `address`: the window's occupancy flags are
    /// cleared, whatever they were. The size is trusted, exactly as the
    /// design demands: a size other than the one allocated clears exactly the
    /// bytes the mismatched window covers, leaking on under-release and
    /// freeing live bytes on over-release. Only an address outside the arena
    /// is rejected, with `InvalidAddress`.
    pub fn free(&mut self, address: usize, size: usize) -> (r: Result<(), AllocError>)
        requires
            old(self).wf(),
            address < old(self).size_spec() ==> address + size <= old(self).size_spec(),
        ensures
            final(self).wf(),
            final(self).size_spec() == old(self).size_spec(),
            final(self).bytes() == old(self).bytes(),
            match r {
                Ok(_) => address < old(self).size_spec() && final(self).occupied() == mark(
                    old(self).occupied(),
                    address as int,
                    size as int,
                    false,
                ),
                Err(e) => {
                    &&& e == AllocError::InvalidAddress
                    &&& address >= old(self).size_spec()
                    &&& final(self).occupied() == old(self).occupied()
                },
            },
    {
        let total = self.mapped.len();
        if address >= total {
            return Err(AllocError::InvalidAddress);
        }
        let mut j: usize = 0;
        while j < size
            invariant
                self.wf(),
                self.size_spec() == total,
                self.size_spec() == old(self).size_spec(),
                self.bytes() == old(self).bytes(),
                j <= size,
                address + size <= self.size_spec(),
                forall|i: int|
                    0 <= i < self.size_spec() ==> self.occupied()[i] == (if address <= i < address
                        + j {
                        false
                    } else {
                        old(self).occupied()[i]
                    }),
            decreases size - j,
        {
            self.mapped.set(address + j, false);
            j = j + 1;
        }
        proof {
            assert(self.occupied() =~= mark(
                old(self).occupied(),
                address as int,
                size as int,
                false,
            ));
        }
        Ok(())
    }
}

/// Allocate `size` bytes from the arena; the address comes from the
/// block-strided first-fit scan.
pub fn malloc(a: &mut MemAllocator, size: usize) -> (r: Result<usize, AllocError>)
    requires
        old(a).wf(),
        size >= 1,
    ensures
        final(a).wf(),
        final(a).size_spec() == old(a).size_spec(),
        final(a).bytes() == old(a).bytes(),
        match r {
            Ok(addr) => {
                &&& find_free(old(a).occupied(), size as int) == Some(addr as int)
                &&& addr + size <= old(a).size_spec()
                &&& window_free(old(a).occupied(), addr as int, size as int)
                &&& final(a).occupied() == mark(old(a).occupied(), addr as int, size as int, true)
            },
            Err(e) => {
                &&& e == AllocError::OutOfMemory
                &&& find_free(old(a).occupied(), size as int) is None
                &&& final(a).occupied() == old(a).occupied()
            },
        },
{
    a.malloc(size)
}

/// Copy the bytes of a literal into a fresh allocation and return its address.
pub fn malloc_lit(a: &mut MemAllocator, lit: &str) -> (r: Result<usize, AllocError>)
    requires
        old(a).wf(),
        lit.spec_bytes().len() >= 1,
    ensures
        final(a).wf(),
        final(a).size_spec() == old(a).size_spec(),
        match r {
            Ok(addr) => {
                &&& find_free(old(a).occupied(), lit.spec_bytes().len() as int) == Some(addr as int)
                &&& addr + lit.spec_bytes().len() <= old(a).size_spec()
                &&& final(a).occupied() == mark(
                    old(a).occupied(),
                    addr as int,
                    lit.spec_bytes().len() as int,
                    true,
                )
                &&& final(a).bytes() == store(old(a).bytes(), addr as int, lit.spec_bytes())
            },
            Err(e) => {
                &&& e == AllocError::OutOfMemory
                &&& find_free(old(a).occupied(), lit.spec_bytes().len() as int) is None
                &&& final(a).occupied() == old(a).occupied()
                &&& final(a).bytes() == old(a).bytes()
            },
        },
{
    let bytes = lit.as_bytes_vec();
    let len = bytes.len();
    let addr = match a.malloc(len) {
        Ok(addr) => addr,
        Err(e) => {
            return Err(e);
        },
    };
    let total = a.size();
    let mut i: usize = 0;
    while i < len
        invariant
            a.wf(),
            a.size_spec() == total,
            a.size_spec() == old(a).size_spec(),
            a.occupied() == mark(old(a).occupied(), addr as int, len as int, true),
            bytes@ == lit.spec_bytes(),
            len == bytes@.len(),
            addr + len <= a.size_spec(),
            i <= len,
            forall|k: int|
                0 <= k < a.size_spec() ==> a.bytes()[k] == (if addr <= k < addr + i {
                    bytes@[k - addr]
                } else {
                    old(a).bytes()[k]
                }),
        decreases len - i,
    {
        a.set_byte(addr + i, bytes[i]);
        i = i + 1;
    }
    proof {
        assert(a.bytes() =~= store(old(a).bytes(), addr as int, lit.spec_bytes()));
    }
    Ok(addr)
}

/// Release `size` bytes at `address` in the arena; the size is trusted.
pub fn free(a: &mut MemAllocator, address: usize, size: usize) -> (r: Result<(), AllocError>)
    requires
        old(a).wf(),
        address < old(a).size_spec() ==> address + size <= old(a).size_spec(),
    ensures
        final(a).wf(),
        final(a).size_spec() == old(a).size_spec(),
        final(a).bytes() == old(a).bytes(),
        match r {
            Ok(_) => address < old(a).size_spec() && final(a).occupied() == mark(
                old(a).occupied(),
                address as int,
                size as int,
                false,
            ),
            Err(e) => {
                &&& e == AllocError::InvalidAddress
                &&& address >= old(a).size_spec()
                &&& final(a).occupied() == old(a).occupied()
            },
        },
{
    a.free(address, size)
}

/// Wherever the scan finds a window, that window fits in the arena, is free,
/// and lies at or after the scan's starting point.
pub proof fn lemma_find_from_fits(occ: Seq<bool>, size: int, start: int)
    requires
        0 <= start,
        1 <= size,
    ensures
        find_from(occ, size, start) matches Some(addr) ==> start <= addr && addr + size
            <= occ.len() && window_free(occ, addr, size),
    decreases occ.len() - start,
{
    if start + size > occ.len() {
    } else if window_free(occ, start, size) {
    } else {
        lemma_find_from_fits(occ, size, start + size);
    }
}

/// On a fresh arena, a single allocation of any size that fits succeeds, at
/// address 0: the scan's first window is already free.
pub proof fn lemma_fresh_arena_alloc(occ: Seq<bool>, size: int)
    requires
        forall|i: int| 0 <= i < occ.len() ==> !occ[i],
        1 <= size <= occ.len(),
    ensures
        find_free(occ, size) == Some(0int),
{
    assert(window_free(occ, 0, size));
}

/// On a fully occupied arena, an allocation of any size fails: every window
/// the scan can test contains an occupied byte.
pub proof fn lemma_full_arena_alloc_fails(occ: Seq<bool>, size: int)
    requires
        forall|i: int| 0 <= i < occ.len() ==> occ[i],
        1 <= size,
    ensures
        find_free(occ, size) is None,
{
    lemma_full_from(occ, size, 0);
}

proof fn lemma_full_from(occ: Seq<bool>, size: int, start: int)
    requires
        forall|i: int| 0 <= i < occ.len() ==> occ[i],
        1 <= size,
        0 <= start,
    ensures
        find_from(occ, size, start) is None,
    decreases occ.len() - start,
{
    if start + size > occ.len() {
    } else {
        assert(occ[start]);
        assert(!window_free(occ, start, size));
        lemma_full_from(occ, size, start + size);
    }
}

/// A release clears exactly the bytes its trusted size covers: every flag
/// inside the window becomes false, every flag outside it is untouched —
/// whether or not the size matches the original allocation. An under-release
/// therefore leaks the tail of a block, and an over-release frees bytes a
/// live neighbour still owns.
pub proof fn lemma_release_clears_exactly_the_window(occ: Seq<bool>, addr: int, size: int)
    ensures
        forall|i: int|
            0 <= i < occ.len() && addr <= i < addr + size ==> !mark(occ, addr, size, false)[i],
        forall|i: int|
            0 <= i < occ.len() && !(addr <= i < addr + size) ==> mark(occ, addr, size, false)[i]
                == occ[i],
{
}

/// Two sequential allocations are disjoint: the second scan runs over an
/// occupancy map in which the first window is marked occupied, so the window
/// it returns cannot overlap the first.
pub proof fn lemma_sequential_allocs_disjoint(
    occ: Seq<bool>,
    a: int,
    addr_a: int,
    b: int,
    addr_b: int,
)
    requires
        1 <= a,
        1 <= b,
        find_free(occ, a) == Some(addr_a),
        find_free(mark(occ, addr_a, a, true), b) == Some(addr_b),
    ensures
        addr_a + a <= addr_b || addr_b + b <= addr_a,
{
    lemma_find_from_fits(occ, a, 0);
    let occ1 = mark(occ, addr_a, a, true);
    lemma_find_from_fits(occ1, b, 0);
    if addr_a < addr_b + b && addr_b < addr_a + a {
        let i = if addr_a >= addr_b {
            addr_a
        } else {
            addr_b
        };
        assert(addr_a <= i < addr_a + a);
        assert(addr_b <= i < addr_b + b);
        assert(occ1[i]);
        assert(window_free(occ1, addr_b, b));
        assert(!occ1[i]);
    }
}

} // verus!

