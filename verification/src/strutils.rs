//! String-buffer concatenation over the arena: a new region holding the two
//! inputs back to back, with both inputs released.

use vstd::prelude::*;

use crate::memalloc::{find_free, mark, store, window_free, AllocError, MemAllocator};

verus! {

/// Concatenate the regions `[addr1, addr1 + len1)` and `[addr2, addr2 + len2)`
/// into a fresh allocation and release both inputs. On success the new region
/// holds the first region's old bytes followed by the second's, and the
/// occupancy map reflects the allocation of the destination and the release
/// of both sources, in that order.
pub fn strcat(
    a: &mut MemAllocator,
    addr1: usize,
    len1: usize,
    addr2: usize,
    len2: usize,
) -> (r: Result<usize, AllocError>)
    requires
        old(a).wf(),
        1 <= len1,
        1 <= len2,
        addr1 + len1 <= old(a).size_spec(),
        addr2 + len2 <= old(a).size_spec(),
        len1 + len2 <= usize::MAX,
        forall|i: int| addr1 <= i < addr1 + len1 ==> old(a).occupied()[i],
        forall|i: int| addr2 <= i < addr2 + len2 ==> old(a).occupied()[i],
    ensures
        final(a).wf(),
        final(a).size_spec() == old(a).size_spec(),
        match r {
            Ok(dest) => {
                &&& find_free(old(a).occupied(), (len1 + len2) as int) == Some(dest as int)
                &&& dest + len1 + len2 <= old(a).size_spec()
                &&& final(a).bytes() == store(
                    old(a).bytes(),
                    dest as int,
                    old(a).bytes().subrange(addr1 as int, addr1 + len1) + old(a).bytes().subrange(
                        addr2 as int,
                        addr2 + len2,
                    ),
                )
                &&& final(a).occupied() == mark(
                    mark(
                        mark(old(a).occupied(), dest as int, (len1 + len2) as int, true),
                        addr1 as int,
                        len1 as int,
                        false,
                    ),
                    addr2 as int,
                    len2 as int,
                    false,
                )
            },
            Err(e) => {
                &&& e == AllocError::OutOfMemory
                &&& find_free(old(a).occupied(), (len1 + len2) as int) is None
                &&& final(a).occupied() == old(a).occupied()
                &&& final(a).bytes() == old(a).bytes()
            },
        },
{
    let total = a.size();
    let dest = match crate::memalloc::malloc(a, len1 + len2) {
        Ok(d) => d,
        Err(e) => {
            return Err(e);
        },
    };
    let mut i: usize = 0;
    while i < len1
        invariant
            a.wf(),
            a.size_spec() == total,
            a.size_spec() == old(a).size_spec(),
            i <= len1,
            1 <= len1,
            1 <= len2,
            len1 + len2 <= usize::MAX,
            addr1 + len1 <= total,
            addr2 + len2 <= total,
            dest + len1 + len2 <= total,
            window_free(old(a).occupied(), dest as int, (len1 + len2) as int),
            a.occupied() == mark(old(a).occupied(), dest as int, (len1 + len2) as int, true),
            forall|k: int| addr1 <= k < addr1 + len1 ==> old(a).occupied()[k],
            forall|k: int| addr2 <= k < addr2 + len2 ==> old(a).occupied()[k],
            forall|k: int|
                0 <= k < total ==> a.bytes()[k] == (if dest <= k < dest + i {
                    old(a).bytes()[addr1 + (k - dest)]
                } else {
                    old(a).bytes()[k]
                }),
        decreases len1 - i,
    {
        proof {
            assert(old(a).occupied()[addr1 + i]);
            assert(!(dest <= addr1 + i < dest + (len1 + len2)));
        }
        let b = a.byte_at(addr1 + i);
        a.set_byte(dest + i, b);
        i = i + 1;
    }
    let mut j: usize = 0;
    while j < len2
        invariant
            a.wf(),
            a.size_spec() == total,
            a.size_spec() == old(a).size_spec(),
            j <= len2,
            1 <= len1,
            1 <= len2,
            len1 + len2 <= usize::MAX,
            addr1 + len1 <= total,
            addr2 + len2 <= total,
            dest + len1 + len2 <= total,
            window_free(old(a).occupied(), dest as int, (len1 + len2) as int),
            a.occupied() == mark(old(a).occupied(), dest as int, (len1 + len2) as int, true),
            forall|k: int| addr1 <= k < addr1 + len1 ==> old(a).occupied()[k],
            forall|k: int| addr2 <= k < addr2 + len2 ==> old(a).occupied()[k],
            forall|k: int|
                0 <= k < total ==> a.bytes()[k] == (if dest <= k < dest + len1 {
                    old(a).bytes()[addr1 + (k - dest)]
                } else if dest + len1 <= k < dest + len1 + j {
                    old(a).bytes()[addr2 + (k - dest - len1)]
                } else {
                    old(a).bytes()[k]
                }),
        decreases len2 - j,
    {
        proof {
            assert(old(a).occupied()[addr2 + j]);
            assert(!(dest <= addr2 + j < dest + (len1 + len2)));
        }
        let b = a.byte_at(addr2 + j);
        a.set_byte(dest + len1 + j, b);
        j = j + 1;
    }
    proof {
        assert(a.bytes() =~= store(
            old(a).bytes(),
            dest as int,
            old(a).bytes().subrange(addr1 as int, addr1 + len1) + old(a).bytes().subrange(
                addr2 as int,
                addr2 + len2,
            ),
        ));
    }
    let _ = crate::memalloc::free(a, addr1, len1);
    let _ = crate::memalloc::free(a, addr2, len2);
    Ok(dest)
}

} // verus!
