//! # Arena-backed adaptive radix tree
//!
//! Provides [`ArenaArtMap`], a map whose nodes and leaves are placed in an [`Arena`] and refer to
//! each other by 32-bit offsets.
//!
//! - The arena is a bump allocator: it hands out ascending offsets, and is recycled at once by
//!   resetting one counter.
//! - A leaf keeps the older versions of its entry behind it (`insert_versioned`,
//!   `get_version_le`).

pub mod iter;
pub mod laws;
pub mod map;
pub mod node;
pub mod tree;

pub use iter::{ArenaEntryRef, Range};
pub use map::{ArenaArtMap, ArenaInserter};

use vstd::prelude::*;

verus! {

/// Maximum arena size, so that offsets fit in 32 bits.
pub const MAX_ARENA_SIZE: usize = 4_294_967_295;

/// Node allocation alignment in the arena, in bytes.
pub const NODE_ALIGNMENT: u32 = 8;

/// The least multiple of `alignment` that is at least `n`.
pub open spec fn align_up(n: int, alignment: int) -> int {
    (n + alignment - 1) / alignment * alignment
}

/// `n` is a power of two.
pub open spec fn is_power_of_two(n: u32) -> bool {
    exists|e: nat| e < 32 && n == #[trigger] vstd::arithmetic::power2::pow2(e)
}

/// A bump allocator of byte offsets for [`ArenaArtMap`](crate::arena::ArenaArtMap).
///
/// Offset zero is never handed out: it stands for no node.
pub struct Arena {
    n: u64,
    capacity: usize,
}

impl Arena {
    /// How far the arena is used, which may be beyond its end after an allocation that did not
    /// fit.
    pub closed spec fn used(&self) -> nat {
        self.n as nat
    }

    /// The total capacity in bytes.
    pub closed spec fn total(&self) -> nat {
        self.capacity as nat
    }

    /// Offsets fit in 32 bits, and the first bytes are never handed out.
    pub closed spec fn wf(&self) -> bool {
        &&& self.capacity <= MAX_ARENA_SIZE
        &&& self.n >= NODE_ALIGNMENT
    }

    /// What holds of every arena.
    pub proof fn lemma_bounds(&self)
        requires
            self.wf(),
        ensures
            self.total() <= MAX_ARENA_SIZE,
            self.used() >= NODE_ALIGNMENT,
            self.used() <= u64::MAX,
    {
    }

    /// `size` bytes with the given alignment and `overflow` spare bytes behind them still fit.
    pub open spec fn fits(&self, size: int, alignment: int, overflow: int) -> bool {
        self.used() + size + alignment - 1 + overflow <= self.total()
    }

    /// Creates a new arena with the specified byte capacity, capped at [`MAX_ARENA_SIZE`].
    pub fn new(capacity: usize) -> (arena: Self)
        ensures
            arena.wf(),
            arena.used() == NODE_ALIGNMENT,
            arena.total() == (if capacity <= MAX_ARENA_SIZE {
                capacity
            } else {
                MAX_ARENA_SIZE
            }),
    {
        let capacity: usize = if capacity < MAX_ARENA_SIZE {
            capacity
        } else {
            MAX_ARENA_SIZE
        };
        Arena { n: NODE_ALIGNMENT as u64, capacity }
    }

    /// Creates an arena with the specified byte capacity.
    pub fn with_capacity(capacity: usize) -> (arena: Self)
        ensures
            arena.wf(),
            arena.used() == NODE_ALIGNMENT,
            arena.total() == (if capacity <= MAX_ARENA_SIZE {
                capacity
            } else {
                MAX_ARENA_SIZE
            }),
    {
        Self::new(capacity)
    }

    /// Returns the number of bytes allocated in the arena so far.
    pub fn size(&self) -> (size: usize)
        ensures
            size == (if self.used() > self.total() {
                self.total()
            } else {
                self.used()
            }),
    {
        if self.n > self.capacity as u64 {
            self.capacity
        } else {
            self.n as usize
        }
    }

    /// Returns the total capacity in bytes of this arena.
    pub fn capacity(&self) -> (capacity: usize)
        ensures
            capacity == self.total(),
    {
        self.capacity
    }

    /// Returns the remaining available bytes in this arena.
    pub fn remaining(&self) -> (remaining: usize)
        ensures
            remaining == (if self.used() > self.total() {
                0
            } else {
                self.total() - self.used()
            }),
    {
        self.capacity() - self.size()
    }

    /// Returns `true` if no user allocations have been made yet.
    pub fn is_empty(&self) -> (r: bool)
        ensures
            r == (self.used() <= NODE_ALIGNMENT || self.total() <= NODE_ALIGNMENT),
    {
        self.size() <= NODE_ALIGNMENT as usize
    }

    /// Resets the allocation offset to allow reusing the arena.
    pub fn reset(&mut self)
        requires
            old(self).wf(),
        ensures
            final(self).wf(),
            final(self).used() == NODE_ALIGNMENT,
            final(self).total() == old(self).total(),
    {
        self.n = NODE_ALIGNMENT as u64;
    }

    /// What an allocation from the arena `self` leaves behind and returns.
    pub open spec fn allocation(
        &self,
        after: &Arena,
        size: u32,
        alignment: u32,
        overflow: u32,
        r: Option<u32>,
    ) -> bool {
        &&& after.wf()
        &&& after.total() == self.total()
        &&& after.used() == (if self.used() + size + alignment - 1 <= u64::MAX {
            self.used() + size + alignment - 1
        } else {
            u64::MAX as int
        })
        &&& r is Some <==> self.fits(size as int, alignment as int, overflow as int)
        &&& r matches Some(offset) ==> {
            &&& offset == align_up(self.used() as int, alignment as int)
            &&& offset % alignment == 0
            &&& self.used() <= offset
            &&& offset + size <= after.used() <= after.total()
        }
    }

    /// Reserves `size` bytes with the specified `alignment`.
    ///
    /// Returns the allocated 32-bit byte offset, or `None` if the arena is full. The bytes are
    /// taken either way.
    pub fn allocate(&mut self, size: u32, alignment: u32, overflow: u32) -> (r: Option<u32>)
        requires
            old(self).wf(),
            is_power_of_two(alignment),
        ensures
            old(self).allocation(final(self), size, alignment, overflow, r),
            final(self).wf(),
            final(self).total() == old(self).total(),
            old(self).used() + size + alignment - 1 <= u64::MAX ==> final(self).used() == old(
                self,
            ).used() + size + alignment - 1,
            old(self).used() + size + alignment - 1 > u64::MAX ==> final(self).used() == u64::MAX,
            r is Some <==> old(self).used() + size + alignment - 1 + overflow <= old(self).total(),
            r matches Some(offset) ==> {
                &&& offset % alignment == 0
                &&& old(self).used() <= offset < old(self).used() + alignment
                &&& offset + size <= final(self).used() <= final(self).total()
            },
    {
        let ghost before = self.n;
        proof {
            lemma_align_down(0, alignment);
        }
        let padded: u64 = size as u64 + alignment as u64 - 1;
        let new_size: u64 = if self.n <= u64::MAX - padded {
            self.n + padded
        } else {
            u64::MAX
        };
        self.n = new_size;
        let capacity: u64 = self.capacity as u64;
        if new_size > capacity || overflow as u64 > capacity - new_size {
            return None;
        }
        let raw: u32 = new_size as u32 - size;
        let offset: u32 = raw & !(alignment - 1);
        proof {
            lemma_align_down(raw, alignment);
            assert(raw == before + alignment - 1);
            lemma_align_up_bounds(before as int, alignment as int);
        }
        Some(offset)
    }
}

/// Masking the low bits away rounds down to a multiple of a power of two.
proof fn lemma_align_down(raw: u32, alignment: u32)
    requires
        is_power_of_two(alignment),
    ensures
        raw & !((alignment - 1) as u32) == raw / alignment * alignment,
        alignment > 0,
{
    let e = choose|e: nat| e < 32 && alignment == #[trigger] vstd::arithmetic::power2::pow2(e);
    vstd::arithmetic::power2::lemma_pow2_pos(e);
    let mask = (alignment - 1) as u32;
    assert(vstd::bits::low_bits_mask(e) == mask);
    vstd::bits::lemma_u32_low_bits_mask_is_mod(raw, e);
    assert(raw & !mask == raw - (raw & mask)) by (bit_vector);
    vstd::arithmetic::div_mod::lemma_fundamental_div_mod(raw as int, alignment as int);
    assert(alignment * (raw / alignment) == raw / alignment * alignment) by (nonlinear_arith);
}

/// Rounding up stays within one alignment.
pub proof fn lemma_align_up_bounds(n: int, alignment: int)
    requires
        n >= 0,
        alignment > 0,
    ensures
        n <= align_up(n, alignment) <= n + alignment - 1,
        align_up(n, alignment) % alignment == 0,
{
    let m = n + alignment - 1;
    vstd::arithmetic::div_mod::lemma_fundamental_div_mod(m, alignment);
    vstd::arithmetic::mul::lemma_mul_is_commutative(alignment, m / alignment);
    vstd::arithmetic::div_mod::lemma_mod_multiples_basic(m / alignment, alignment);
}

/// Distinct allocations reserve disjoint byte ranges: what a later one gets lies behind what an
/// earlier one got, and within the arena.
pub proof fn lemma_allocations_disjoint(
    before_first: &Arena,
    after_first: &Arena,
    first_size: u32,
    first_alignment: u32,
    first_overflow: u32,
    first: u32,
    before_second: &Arena,
    after_second: &Arena,
    second_size: u32,
    second_alignment: u32,
    second_overflow: u32,
    second: u32,
)
    requires
        before_first.allocation(
            after_first,
            first_size,
            first_alignment,
            first_overflow,
            Some(first),
        ),
        after_first.used() <= before_second.used(),
        before_second.allocation(
            after_second,
            second_size,
            second_alignment,
            second_overflow,
            Some(second),
        ),
    ensures
        first + first_size <= second,
        second + second_size <= after_second.total(),
{
}

/// An allocation says whether the bytes fit, and where they stand: at the first offset from the used
/// part on that is a multiple of the alignment.
pub proof fn lemma_allocation(
    before: &Arena,
    after: &Arena,
    size: u32,
    alignment: u32,
    overflow: u32,
    r: Option<u32>,
)
    requires
        before.allocation(after, size, alignment, overflow, r),
        alignment > 0,
    ensures
        r is Some <==> before.used() + size + alignment - 1 + overflow <= before.total(),
        r is Some <==> before.fits(size as int, alignment as int, overflow as int),
        r matches Some(offset) ==> {
            &&& offset % alignment == 0
            &&& forall|n: int|
                before.used() <= n && #[trigger] (n % (alignment as int)) == 0 ==> offset <= n
            &&& before.used() <= offset
            &&& offset + size <= after.used()
        },
        after.total() == before.total(),
{
    if let Some(offset) = r {
        let a = alignment as int;
        lemma_align_up_bounds(before.used() as int, a);
        assert forall|n: int| before.used() <= n && #[trigger] (n % a) == 0 implies offset <= n by {
            lemma_align_up_least(before.used() as int, a, n);
        }
    }
}

/// Rounding up gives the least multiple that is not smaller.
pub proof fn lemma_align_up_least(n: int, alignment: int, m: int)
    requires
        n >= 0,
        alignment > 0,
        n <= m,
        m % alignment == 0,
    ensures
        align_up(n, alignment) <= m,
{
    lemma_align_up_bounds(n, alignment);
    let up = align_up(n, alignment);
    if m < up {
        let a = alignment;
        vstd::arithmetic::div_mod::lemma_fundamental_div_mod(up, a);
        vstd::arithmetic::div_mod::lemma_fundamental_div_mod(m, a);
        let (x, y) = (up / a, m / a);
        assert(x * a <= y * a || x * a >= y * a + a) by (nonlinear_arith)
            requires
                a > 0,
        ;
        vstd::arithmetic::mul::lemma_mul_is_commutative(a, x);
        vstd::arithmetic::mul::lemma_mul_is_commutative(a, y);
    }
}

/// Every power of two up to the highest bit of an offset is one.
pub proof fn lemma_powers_of_two(e: nat, n: u32)
    ensures
        e < 32 && n == vstd::arithmetic::power2::pow2(e) ==> is_power_of_two(n),
        is_power_of_two(n) ==> n > 0 && exists|e: nat|
            e < 32 && n == #[trigger] vstd::arithmetic::power2::pow2(e),
{
    if is_power_of_two(n) {
        let e = choose|e: nat| e < 32 && n == #[trigger] vstd::arithmetic::power2::pow2(e);
        vstd::arithmetic::power2::lemma_pow2_pos(e);
    }
}

} // verus!
