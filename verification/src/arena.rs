//! The bump-allocation bookkeeping of an arena: where the next block of
//! a given size and alignment starts, and how much has been handed out.
//! (The buffer and the pointers into it are the host's.)
use vstd::prelude::*;

verus! {

/// `a` is a power of two.
pub open spec fn is_pow2(a: usize) -> bool {
    a > 0 && a & ((a - 1) as usize) == 0
}

/// The least multiple of `align` (a power of two) not below `cur`.
pub open spec fn align_up(cur: usize, align: usize) -> int {
    (((cur + align - 1) as usize) & !((align - 1) as usize)) as int
}

/// Rounding up to a power of two: the result has no bits below the
/// alignment (it is a multiple of it), is not below `cur`, and is less
/// than one alignment step above.
pub proof fn lemma_align_up(cur: usize, align: usize)
    requires
        is_pow2(align),
        cur + align - 1 <= usize::MAX,
    ensures
        cur <= align_up(cur, align) < cur + align,
        (align_up(cur, align) as usize) & ((align - 1) as usize) == 0,
{
    let x = (cur + align - 1) as usize;
    let m = (align - 1) as usize;
    assert(x & !m <= x) by (bit_vector);
    assert((x & !m) + (x & m) == x) by (bit_vector);
    assert(x & m <= m) by (bit_vector);
    assert(((x & !m) & m) == 0) by (bit_vector);
}

/// The largest alignment a block is asked for.
pub const MAX_ALIGN: usize = 0x2000_0000;

/// An arena's bookkeeping: its size and the offset of the first free
/// byte.
#[derive(Debug, Clone, Copy)]
pub struct ArenaOffsets {
    capacity: usize,
    offset: usize,
}

impl ArenaOffsets {
    /// The arena's size.
    pub closed spec fn size(self) -> usize {
        self.capacity
    }

    /// Bytes handed out so far.
    pub closed spec fn used(self) -> usize {
        self.offset
    }

    #[verifier::type_invariant]
    closed spec fn within(self) -> bool {
        self.offset <= self.capacity && self.capacity <= isize::MAX
    }

    /// An empty arena of `capacity` bytes (a buffer is at most
    /// `isize::MAX` bytes).
    pub fn new(capacity: usize) -> (a: ArenaOffsets)
        requires
            capacity <= isize::MAX,
        ensures
            a.size() == capacity,
            a.used() == 0,
    {
        ArenaOffsets { capacity, offset: 0 }
    }

    /// Places a block of `size` bytes aligned to `align` after the used
    /// part: its offset, or `None` (nothing changes) when it does not fit.
    pub fn reserve(&mut self, size: usize, align: usize) -> (r: Option<usize>)
        requires
            is_pow2(align),
            align <= MAX_ALIGN,
        ensures
            final(self).size() == old(self).size(),
            r is Some <==> align_up(old(self).used(), align) + size <= old(self).size(),
            r matches Some(off) ==> off == align_up(old(self).used(), align) && final(self).used()
                == off + size,
            r is None ==> final(self).used() == old(self).used(),
            r matches Some(off) ==> off & ((align - 1) as usize) == 0 && old(self).used() <= off,
    {
        proof {
            use_type_invariant(&*self);
            lemma_align_up(self.offset, align);
        }
        let cur = self.offset;
        let aligned = (cur + align - 1) & !(align - 1);
        if aligned > self.capacity || size > self.capacity - aligned {
            return None;
        }
        self.offset = aligned + size;
        Some(aligned)
    }

    /// Frees everything at once.
    pub fn reset(&mut self)
        ensures
            final(self).size() == old(self).size(),
            final(self).used() == 0,
    {
        proof {
            use_type_invariant(&*self);
        }
        self.offset = 0;
    }

    /// Bytes handed out so far (alignment padding included).
    pub fn bytes_used(&self) -> (r: usize)
        ensures
            r == self.used(),
    {
        self.offset
    }

    /// The arena's size.
    pub fn capacity(&self) -> (r: usize)
        ensures
            r == self.size(),
    {
        self.capacity
    }
}

} // verus!
