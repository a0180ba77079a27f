//! Compressed storage of allocation sizes.
//!
//! A live allocation's byte size is stored in 32 bits: sizes below 2^31 are
//! stored exactly; larger sizes are stored as a rounded count of mebibytes
//! with the high bit set as a marker, trading at most half a mebibyte of
//! rounding error for a halved per-record overhead.

use vstd::prelude::*;
use vstd::arithmetic::div_mod::lemma_fundamental_div_mod;

verus! {

/// One mebibyte, the rounding unit for large allocations.
pub const MIB: usize = 1048576;

/// Sizes at or above this threshold (2^31) are stored rounded to mebibytes.
pub const HIGH_32BIT: u32 = 2147483648;

/// The largest size whose rounded mebibyte count still fits in the 31 bits
/// left beside the marker bit.
pub open spec fn max_tracked_size() -> int {
    2251799813160959
}

/// The 32-bit value actually stored for a size.
pub open spec fn compressed_of(size: int) -> int {
    if size >= HIGH_32BIT {
        (size + 524288) / 1048576 + HIGH_32BIT
    } else {
        size
    }
}

/// The size reconstructed from a stored 32-bit value.
pub open spec fn size_of_compressed(c: int) -> int {
    if c >= HIGH_32BIT {
        (c - HIGH_32BIT) * MIB
    } else {
        c
    }
}

/// The byte count a tracked allocation of `size` bytes is accounted as:
/// exact below 2^31, rounded to whole mebibytes at or above it.
pub open spec fn stored_size_of(size: int) -> int {
    size_of_compressed(compressed_of(size))
}

/// The rounded mebibyte count of a representable size fits in 31 bits.
proof fn lemma_mib_count_bound(size: int)
    requires
        0 <= size <= max_tracked_size(),
    ensures
        0 <= (size + 524288) / 1048576 < HIGH_32BIT,
{
    lemma_fundamental_div_mod(size + 524288, 1048576);
    let q = (size + 524288) / 1048576;
    let r = (size + 524288) % 1048576;
    assert(q * 1048576 == size + 524288 - r);
    assert(q < 2147483648) by (nonlinear_arith)
        requires
            q * 1048576 == size + 524288 - r,
            0 <= r < 1048576,
            size <= 2251799813160959,
    ;
    assert(q >= 0) by (nonlinear_arith)
        requires
            q * 1048576 == size + 524288 - r,
            0 <= r < 1048576,
            size >= 0,
    ;
}

/// A single tracked `malloc`-style allocation: the identity of the call
/// stack that made it, and its compressed size.
#[derive(Clone, Copy, Debug, PartialEq, Eq, Structural)]
pub struct Allocation {
    pub callstack_id: u32,
    pub compressed_size: u32,
}

impl Allocation {
    /// The reconstructed byte size of this allocation, as a spec value.
    pub open spec fn spec_size(self) -> int {
        size_of_compressed(self.compressed_size as int)
    }

    /// Compress `size` and pair it with the owning call stack identity.
    pub fn new(callstack_id: u32, size: usize) -> (r: Allocation)
        requires
            size <= max_tracked_size(),
            size + 524288 <= usize::MAX,
        ensures
            r.callstack_id == callstack_id,
            r.compressed_size == compressed_of(size as int),
    {
        let compressed_size: u32 = if size >= HIGH_32BIT as usize {
            proof {
                lemma_mib_count_bound(size as int);
            }
            let q: usize = (size + MIB / 2) / MIB;
            let q32: u32 = q as u32;
            proof {
                assert(q32 | HIGH_32BIT == q32 + HIGH_32BIT) by (bit_vector)
                    requires q32 < 2147483648u32;
            }
            q32 | HIGH_32BIT
        } else {
            size as u32
        };
        Allocation { callstack_id, compressed_size }
    }

    /// Reconstruct the byte size, exactly for small allocations and to the
    /// nearest mebibyte for large ones.
    pub fn size(&self) -> (r: usize)
        requires
            self.spec_size() <= usize::MAX,
        ensures
            r == self.spec_size(),
    {
        if self.compressed_size >= HIGH_32BIT {
            let mibs: u32 = self.compressed_size - HIGH_32BIT;
            proof {
                assert((mibs as int) * 1048576 < 0x8000000000000) by (nonlinear_arith)
                    requires mibs < 2147483648u32;
            }
            mibs as usize * MIB
        } else {
            self.compressed_size as usize
        }
    }
}

/// Size compression round-trips exactly for all sizes below 2^31; for sizes
/// at or above 2^31 (up to the largest representable size) the reconstructed
/// size differs from the original by at most half a mebibyte.
pub proof fn lemma_size_compression_round_trip(size: int)
    requires
        0 <= size <= max_tracked_size(),
    ensures
        size < HIGH_32BIT ==> stored_size_of(size) == size,
        size >= HIGH_32BIT ==> stored_size_of(size) <= size + 524288,
        size >= HIGH_32BIT ==> size <= stored_size_of(size) + 524288,
{
    if size >= HIGH_32BIT {
        lemma_mib_count_bound(size);
        lemma_fundamental_div_mod(size + 524288, 1048576);
        let q = (size + 524288) / 1048576;
        let r = (size + 524288) % 1048576;
        assert(q * 1048576 == size + 524288 - r);
        assert(compressed_of(size) == q + HIGH_32BIT);
        assert(stored_size_of(size) == q * 1048576);
    }
}

} // verus!
