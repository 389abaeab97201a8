//! # Optimistic version latch
//!
//! Provides [`HybridLatch`], a version word with which a reader can tell whether a node was
//! modified behind its back. Bit 0 of the word says that a writer holds the latch, bit 1 that
//! the node was replaced for good, and the remaining bits count the modifications.

use vstd::prelude::*;

verus! {

pub const LOCK_BIT: u64 = 0b01;

pub const OBSOLETE_BIT: u64 = 0b10;

pub const LOCKED_OR_OBSOLETE: u64 = 0b11;

pub const VERSION_STEP: u64 = 0b100;

/// Error returned when acquiring a lock on an obsolete node.
#[derive(Copy, Clone, Debug, PartialEq, Eq, Structural)]
pub enum LockError {
    Obsolete,
}

/// A version latch supporting optimistic reads and exclusive writes.
#[derive(Debug)]
pub struct HybridLatch {
    version: u64,
}

/// A writer holds the latch.
pub open spec fn locked(word: u64) -> bool {
    word & LOCK_BIT != 0
}

/// The node that the latch guards was replaced for good.
pub open spec fn obsolete(word: u64) -> bool {
    word & OBSOLETE_BIT != 0
}

/// The word that a release leaves behind.
pub open spec fn released(word: u64) -> u64 {
    (word & !LOCK_BIT).wrapping_add(VERSION_STEP)
}

impl View for HybridLatch {
    type V = u64;

    closed spec fn view(&self) -> u64 {
        self.version
    }
}

impl Default for HybridLatch {
    fn default() -> (latch: Self)
        ensures
            latch@ == 0,
    {
        Self::new()
    }
}

impl HybridLatch {
    /// The latch is neither held nor obsolete.
    pub open spec fn is_free(&self) -> bool {
        !locked(self@) && !obsolete(self@)
    }

    /// Attempts to acquire the exclusive write lock if the version matches `expected_version`.
    pub fn lock_version(&mut self, expected_version: u64) -> (r: Result<u64, LockError>)
        ensures
            old(self)@ == expected_version ==> {
                &&& r == Ok::<u64, LockError>(expected_version)
                &&& final(self)@ == expected_version | LOCK_BIT
            },
            old(self)@ != expected_version ==> {
                &&& r == Err::<u64, LockError>(LockError::Obsolete)
                &&& final(self)@ == old(self)@
            },
    {
        if self.version != expected_version {
            return Err(LockError::Obsolete);
        }
        self.version = expected_version | LOCK_BIT;
        Ok(expected_version)
    }

    /// Creates a new unlocked, non-obsolete latch with initial version 0.
    pub fn new() -> (latch: Self)
        ensures
            latch@ == 0,
            latch.is_free(),
    {
        proof {
            assert(0u64 & LOCK_BIT == 0) by (bit_vector);
            assert(0u64 & OBSOLETE_BIT == 0) by (bit_vector);
        }
        Self { version: 0 }
    }

    /// Reads the current version if the latch is neither write-locked nor obsolete.
    ///
    /// Returns `Some(version)` if unlocked and live, or `None` if currently locked or obsolete.
    pub fn read_version(&self) -> (r: Option<u64>)
        ensures
            r == (if self.is_free() {
                Some(self@)
            } else {
                None
            }),
    {
        let v: u64 = self.version;
        proof {
            assert((v & LOCKED_OR_OBSOLETE != 0) == (v & LOCK_BIT != 0 || v & OBSOLETE_BIT != 0))
                by (bit_vector);
        }
        if v & LOCKED_OR_OBSOLETE != 0 {
            None
        } else {
            Some(v)
        }
    }

    /// Validates that the latch has not changed, been locked, or marked obsolete
    /// since `start_version` was captured.
    pub fn validate(&self, start_version: u64) -> (r: bool)
        ensures
            r == (self@ == start_version),
    {
        self.version == start_version
    }

    /// Checks if the node has been marked obsolete.
    pub fn is_obsolete(&self) -> (r: bool)
        ensures
            r == obsolete(self@),
    {
        self.version & OBSOLETE_BIT != 0
    }

    /// Attempts to acquire the exclusive write lock without spinning.
    ///
    /// Returns `Ok(current_version)` on success, or `Err(true)` if obsolete, `Err(false)` if locked.
    pub fn try_lock(&mut self) -> (r: Result<u64, bool>)
        ensures
            r == (if obsolete(old(self)@) {
                Err::<u64, bool>(true)
            } else if locked(old(self)@) {
                Err::<u64, bool>(false)
            } else {
                Ok::<u64, bool>(old(self)@)
            }),
            final(self)@ == (if r is Ok {
                old(self)@ | LOCK_BIT
            } else {
                old(self)@
            }),
    {
        let v: u64 = self.version;
        if v & OBSOLETE_BIT != 0 {
            return Err(true);
        }
        if v & LOCK_BIT != 0 {
            return Err(false);
        }
        self.version = v | LOCK_BIT;
        Ok(v)
    }

    /// Acquires the exclusive write lock.
    ///
    /// Returns `Ok(current_version)` on success, or `Err(LockError::Obsolete)` if the node is
    /// obsolete. The caller has the latch to itself, so a live latch that is already held would
    /// never be released: `lock` must not be called on one.
    pub fn lock(&mut self) -> (r: Result<u64, LockError>)
        requires
            locked(old(self)@) ==> obsolete(old(self)@),
        ensures
            r == (if obsolete(old(self)@) {
                Err::<u64, LockError>(LockError::Obsolete)
            } else {
                Ok::<u64, LockError>(old(self)@)
            }),
            final(self)@ == (if r is Ok {
                old(self)@ | LOCK_BIT
            } else {
                old(self)@
            }),
    {
        match self.try_lock() {
            Ok(v) => Ok(v),
            Err(_) => Err(LockError::Obsolete),
        }
    }

    /// Releases the exclusive write lock, incrementing the version counter to notify readers.
    pub fn unlock(&mut self)
        requires
            locked(old(self)@),
        ensures
            final(self)@ == released(old(self)@),
    {
        let current: u64 = self.version;
        self.version = (current & !LOCK_BIT).wrapping_add(VERSION_STEP);
    }

    /// Marks the node as permanently obsolete and releases the lock.
    pub fn mark_obsolete_and_unlock(&mut self)
        requires
            locked(old(self)@),
        ensures
            final(self)@ == (old(self)@ & !LOCK_BIT) | OBSOLETE_BIT,
    {
        let current: u64 = self.version;
        self.version = (current & !LOCK_BIT) | OBSOLETE_BIT;
    }
}

/// What follows from one write under the latch: the word that a reader captured before the
/// write is not validated while the latch is held nor after it was released, and the released
/// latch is free again, one version step further.
pub proof fn lemma_write_is_visible(word: u64)
    requires
        !locked(word),
        !obsolete(word),
    ensures
        locked(word | LOCK_BIT),
        !obsolete(word | LOCK_BIT),
        word | LOCK_BIT != word,
        released(word | LOCK_BIT) == word.wrapping_add(VERSION_STEP),
        released(word | LOCK_BIT) != word,
        !locked(released(word | LOCK_BIT)),
        !obsolete(released(word | LOCK_BIT)),
{
    assert(word & 1 == 0 ==> (word | 1) & 1 != 0) by (bit_vector);
    assert(word & 2 == 0 ==> (word | 1) & 2 == 0) by (bit_vector);
    assert(word & 1 == 0 ==> (word | 1) != word) by (bit_vector);
    assert(word & 1 == 0 ==> (word | 1) & !1u64 == word) by (bit_vector);
    let step: u64 = word.wrapping_add(VERSION_STEP);
    assert(word & 1 == 0 && word & 2 == 0 ==> word % 4 == 0) by (bit_vector);
    assert(step % 4 == 0);
    assert(step % 4 == 0 ==> step & 1 == 0 && step & 2 == 0) by (bit_vector);
}

/// What the bits of a latch word mean, as numbers: the lowest says that a writer holds the latch, the
/// next one that the node is obsolete, and the rest counts. A release clears the lowest bit and
/// counts one further.
pub proof fn lemma_word_bits(word: u64)
    ensures
        locked(word) <==> word % 2 == 1,
        obsolete(word) <==> (word / 2) % 2 == 1,
        !locked(word) ==> word | LOCK_BIT == word + 1,
        locked(word) ==> word | LOCK_BIT == word,
        released(word) == ((word - word % 2) as u64).wrapping_add(4),
        !obsolete(word) ==> (word & !LOCK_BIT) | OBSOLETE_BIT == word - word % 2 + 2,
        obsolete(word) ==> (word & !LOCK_BIT) | OBSOLETE_BIT == word - word % 2,
        VERSION_STEP == 4,
{
    assert((word & 1 != 0) == (word % 2 == 1)) by (bit_vector);
    assert((word & 2 != 0) == ((word / 2) % 2 == 1)) by (bit_vector);
    assert(word | 1 == word - word % 2 + 1) by (bit_vector);
    assert(word & !1u64 == word - word % 2) by (bit_vector);
    assert((word & !1u64) | 2 == (if word & 2 != 0 {
        word - word % 2
    } else {
        word - word % 2 + 2
    })) by (bit_vector);
}

/// Obsolescence is final: once a held latch is marked obsolete no reader can capture its
/// version, and no writer can lock it.
pub proof fn lemma_obsolete_is_final(word: u64)
    ensures
        obsolete((word & !LOCK_BIT) | OBSOLETE_BIT),
        !locked((word & !LOCK_BIT) | OBSOLETE_BIT),
{
    assert(((word & !1u64) | 2) & 2 != 0) by (bit_vector);
    assert(((word & !1u64) | 2) & 1 == 0) by (bit_vector);
}

/// How a writer passes the time until it tries again.
#[derive(Copy, Clone, Debug, PartialEq, Eq, Structural)]
pub enum Pause {
    /// Busy-wait for this many turns.
    Turns(u32),
    /// Give the processor away.
    Yield,
}

/// Exponential backoff for writers that wait.
pub struct SpinBackoff {
    step: u32,
}

impl View for SpinBackoff {
    type V = u32;

    closed spec fn view(&self) -> u32 {
        self.step
    }
}

impl Default for SpinBackoff {
    fn default() -> (backoff: Self)
        ensures
            backoff@ == 0,
    {
        Self::new()
    }
}

impl SpinBackoff {
    pub fn new() -> (backoff: Self)
        ensures
            backoff@ == 0,
    {
        Self { step: 0 }
    }

    /// Decides the next pause: the number of turns doubles with each step up to the eighth,
    /// and after the tenth the processor is yielded instead.
    pub fn spin(&mut self) -> (pause: Pause)
        ensures
            old(self)@ <= 10 ==> (pause matches Pause::Turns(n) && n == vstd::arithmetic::power2::pow2(
                if old(self)@ < 8 {
                    old(self)@ as nat
                } else {
                    8
                },
            )),
            old(self)@ > 10 ==> pause == Pause::Yield,
            final(self)@ == (if old(self)@ < 16 {
                (old(self)@ + 1) as u32
            } else {
                old(self)@
            }),
    {
        let step: u32 = self.step;
        if self.step < 16 {
            self.step = self.step + 1;
        }
        if step <= 10 {
            let shift: u32 = if step < 8 { step } else { 8 };
            let spins: u32 = 1u32 << shift;
            proof {
                vstd::arithmetic::power2::lemma2_to64();
                vstd::arithmetic::power2::lemma_pow2_strictly_increases(shift as nat, 9);
                vstd::bits::lemma_u32_shl_is_mul(1, shift);
            }
            Pause::Turns(spins)
        } else {
            Pause::Yield
        }
    }
}

} // verus!
