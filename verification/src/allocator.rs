//! The allocation capability every session draws its table buffers through.
//!
//! An `Allocator` carries a byte budget. Requests within the budget yield a
//! zero-filled buffer and debit the budget; requests beyond it fail without
//! side effects, so callers can exercise allocation-failure paths by
//! injecting a small budget. Freeing a buffer credits its size back,
//! saturating at the largest representable budget.

use vstd::prelude::*;

verus! {

/// Build a vector of `n` copies of `x`.
pub fn filled<T: Copy>(n: usize, x: T) -> (r: Vec<T>)
    ensures
        r@.len() == n,
        forall|i: int| 0 <= i < n ==> r@[i] == x,
{
    let mut r: Vec<T> = Vec::new();
    let mut k: usize = 0;
    while k < n
        invariant
            k == r@.len() <= n,
            forall|i: int| 0 <= i < k ==> r@[i] == x,
        decreases n - k,
    {
        r.push(x);
        k = k + 1;
    }
    r
}

/// Budgeted allocation capability; the default carries an effectively
/// unlimited budget backed by the system allocator.
pub struct Allocator {
    budget: usize,
}

impl Default for Allocator {
    /// An allocator whose budget never runs out in practice.
    fn default() -> (r: Self)
        ensures
            r.budget() == usize::MAX,
    {
        Allocator { budget: usize::MAX }
    }
}

impl Allocator {
    /// Bytes still available for allocation.
    pub closed spec fn budget(self) -> int {
        self.budget as int
    }

    /// An allocator limited to `budget` bytes, for bounded or
    /// fault-injecting use.
    pub fn with_budget(budget: usize) -> (r: Self)
        ensures
            r.budget() == budget,
    {
        Allocator { budget }
    }

    /// Borrow the capability to hand it to a session.
    pub fn as_ref(&self) -> (r: &Allocator)
        ensures
            r == self,
    {
        self
    }

    /// Allocate `n` zeroed bytes, debiting the budget; fails exactly when
    /// the budget is short, and never panics.
    pub fn allocate(&mut self, n: usize) -> (r: Option<Vec<u8>>)
        ensures
            n <= old(self).budget() ==> {
                &&& r matches Some(v) && v@.len() == n && (forall|i: int|
                    0 <= i < n ==> v@[i] == 0u8)
                &&& final(self).budget() == old(self).budget() - n
            },
            n > old(self).budget() ==> r is None && *final(self) == *old(self),
    {
        if n <= self.budget {
            self.budget = self.budget - n;
            Some(filled(n, 0u8))
        } else {
            None
        }
    }

    /// Allocate `n` zeroed 16-bit words, debiting two budget bytes per word.
    pub fn allocate_words(&mut self, n: usize) -> (r: Option<Vec<u16>>)
        ensures
            2 * n <= old(self).budget() ==> {
                &&& r matches Some(v) && v@.len() == n && (forall|i: int|
                    0 <= i < n ==> v@[i] == 0u16)
                &&& final(self).budget() == old(self).budget() - 2 * n
            },
            2 * n > old(self).budget() ==> r is None && *final(self) == *old(self),
    {
        if n <= self.budget / 2 {
            assert(2 * n <= self.budget);
            self.budget = self.budget - 2 * n;
            Some(filled(n, 0u16))
        } else {
            assert(2 * n > self.budget);
            None
        }
    }

    /// Allocate `n` zeroed 32-bit words, debiting four budget bytes per word.
    pub fn allocate_index(&mut self, n: usize) -> (r: Option<Vec<u32>>)
        ensures
            4 * n <= old(self).budget() ==> {
                &&& r matches Some(v) && v@.len() == n && (forall|i: int|
                    0 <= i < n ==> v@[i] == 0u32)
                &&& final(self).budget() == old(self).budget() - 4 * n
            },
            4 * n > old(self).budget() ==> r is None && *final(self) == *old(self),
    {
        if n <= self.budget / 4 {
            assert(4 * n <= self.budget);
            self.budget = self.budget - 4 * n;
            Some(filled(n, 0u32))
        } else {
            assert(4 * n > self.budget);
            None
        }
    }

    /// Return a byte buffer, crediting its length back to the budget.
    pub fn free(&mut self, buf: Vec<u8>)
        ensures
            final(self).budget() == sat_budget(old(self).budget() + buf@.len()),
            final(self).budget() >= old(self).budget(),
    {
        self.credit(buf.len());
    }

    /// Return a 16-bit word buffer, crediting two bytes per word.
    pub fn free_words(&mut self, buf: Vec<u16>)
        ensures
            final(self).budget() == sat_budget(old(self).budget() + 2 * buf@.len()),
            final(self).budget() >= old(self).budget(),
    {
        let len = buf.len();
        if len <= usize::MAX / 2 {
            self.credit(2 * len);
        } else {
            self.credit(usize::MAX);
        }
    }

    /// Return a 32-bit word buffer, crediting four bytes per word.
    pub fn free_index(&mut self, buf: Vec<u32>)
        ensures
            final(self).budget() == sat_budget(old(self).budget() + 4 * buf@.len()),
            final(self).budget() >= old(self).budget(),
    {
        let len = buf.len();
        if len <= usize::MAX / 4 {
            self.credit(4 * len);
        } else {
            self.credit(usize::MAX);
        }
    }

    /// Credit `n` bytes back to the budget, saturating at the maximum.
    fn credit(&mut self, n: usize)
        ensures
            final(self).budget() == sat_budget(old(self).budget() + n),
            final(self).budget() >= old(self).budget(),
    {
        if n > usize::MAX - self.budget {
            self.budget = usize::MAX;
        } else {
            self.budget = self.budget + n;
        }
    }
}

/// A budget sum clipped to the largest representable budget.
pub open spec fn sat_budget(n: int) -> int {
    if n > usize::MAX as int {
        usize::MAX as int
    } else {
        n
    }
}

} // verus!
