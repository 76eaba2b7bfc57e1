//! The first heap of the kernel: an allocator that only moves a mark forward
//! and never takes memory back.

use vstd::prelude::*;

verus! {

/// Whether `align` is a power of two.
pub open spec fn is_power_of_two(align: u64) -> bool {
    align != 0 && align & ((align - 1) as u64) == 0
}

/// Whether the address is aligned: a multiple of the alignment, which is a
/// power of two, so that the bits of the address below that power are zero.
pub open spec fn is_aligned(addr: u64, align: u64) -> bool {
    addr & ((align - 1) as u64) == 0
}

/// Align downwards. Returns the greatest `x` with alignment `align` such
/// that `x <= addr`. The alignment has to be a power of two, or zero; with
/// zero the address is returned as it is.
pub fn align_down(addr: u64, align: u64) -> (aligned: u64)
    requires
        align == 0 || is_power_of_two(align),
    ensures
        align == 0 ==> aligned == addr,
        align != 0 ==> {
            &&& aligned <= addr
            &&& addr - aligned < align
            &&& is_aligned(aligned, align)
            &&& aligned == addr & !((align - 1) as u64)
        },
{
    if align == 0 {
        addr
    } else {
        let mask = align - 1;
        let aligned = addr & !mask;
        assert(aligned <= addr && addr - aligned <= mask && aligned & mask == 0 && aligned
            == addr & !mask) by (bit_vector)
            requires
                aligned == addr & !mask,
        ;
        aligned
    }
}

/// Align upwards. Returns the smallest `x` with alignment `align` such that
/// `x >= addr`. The alignment has to be a power of two, and the result has
/// to fit.
pub fn align_up(addr: u64, align: u64) -> (aligned: u64)
    requires
        is_power_of_two(align),
        addr + align - 1 <= u64::MAX,
    ensures
        aligned >= addr,
        aligned - addr < align,
        is_aligned(aligned, align),
{
    let mask = align - 1;
    let sum = addr + mask;
    let aligned = align_down(sum, align);
    assert(sum & mask <= mask) by (bit_vector);
    assert(aligned + (sum & mask) == sum) by (bit_vector)
        requires
            aligned == sum & !mask,
    ;
    aligned
}

/// An allocator over the memory from `heap_start` up to, and without,
/// `heap_start + heap_size`. What lies below `next` is handed out.
#[derive(Debug)]
pub struct Allocator {
    heap_start: u64,
    heap_size: u64,
    next: u64,
}

impl Allocator {
    #[verifier::type_invariant]
    spec fn within_heap(self) -> bool {
        self.heap_start <= self.next <= self.heap_start + self.heap_size <= u64::MAX
    }

    /// The first address of the heap.
    pub closed spec fn heap_start(self) -> u64 {
        self.heap_start
    }

    /// The number of bytes in the heap.
    pub closed spec fn heap_size(self) -> u64 {
        self.heap_size
    }

    /// The first address that is not handed out.
    pub closed spec fn next(self) -> u64 {
        self.next
    }

    /// Creates a new allocator which uses the memory in the range
    /// `heap_start..heap_start + heap_size`.
    pub fn new(heap_start: u64, heap_size: u64) -> (allocator: Allocator)
        requires
            heap_start + heap_size <= u64::MAX,
        ensures
            allocator.heap_start() == heap_start,
            allocator.heap_size() == heap_size,
            allocator.next() == heap_start,
    {
        Allocator { heap_start, heap_size, next: heap_start }
    }

    /// Allocates a block of memory with the given size and alignment, which
    /// has to be a power of two: the block starts at the first aligned
    /// address that is not handed out. Returns `None`, and hands out nothing,
    /// where the block does not fit into the heap.
    pub fn allocate(&mut self, size: u64, align: u64) -> (block: Option<u64>)
        requires
            is_power_of_two(align),
        ensures
            final(self).heap_start() == old(self).heap_start(),
            final(self).heap_size() == old(self).heap_size(),
            match block {
                Some(start) => {
                    &&& start >= old(self).next()
                    &&& start - old(self).next() < align
                    &&& is_aligned(start, align)
                    &&& start + size <= old(self).heap_start() + old(self).heap_size()
                    &&& final(self).next() == start + size
                },
                None => {
                    &&& final(self).next() == old(self).next()
                    &&& forall|start: u64|
                        start >= old(self).next() && #[trigger] is_aligned(start, align) ==> start
                            + size > old(self).heap_start() + old(self).heap_size()
                },
            },
    {
        proof {
            use_type_invariant(&*self);
        }
        let end = self.heap_start + self.heap_size;
        let next = self.next;
        let down = align_down(next, align);
        let alloc_start = if down == next {
            next
        } else if down > u64::MAX - align {
            proof {
                assert forall|start: u64|
                    start >= next && #[trigger] is_aligned(start, align) implies start + size
                    > end by {
                    lemma_aligned_gap(down, start, align);
                }
            }
            return None;
        } else {
            down + align
        };
        proof {
            let mask = (align - 1) as u64;
            assert(alloc_start & mask == 0) by (bit_vector)
                requires
                    down & mask == 0,
                    alloc_start == down || alloc_start == down + align,
                    align & mask == 0,
                    mask + 1 == align,
            ;
        }
        if alloc_start > end || size > end - alloc_start {
            proof {
                assert forall|start: u64|
                    start >= next && #[trigger] is_aligned(start, align) implies start + size
                    > end by {
                    if down != next {
                        lemma_aligned_gap(down, start, align);
                    }
                }
            }
            return None;
        }
        self.next = alloc_start + size;
        Some(alloc_start)
    }
}

/// Two aligned addresses of which one is above the other lie a whole
/// alignment apart at least.
pub proof fn lemma_aligned_gap(below: u64, above: u64, align: u64)
    requires
        is_power_of_two(align),
        is_aligned(below, align),
        is_aligned(above, align),
        above > below,
    ensures
        above >= below + align,
{
    let mask = (align - 1) as u64;
    assert(above - below >= align) by (bit_vector)
        requires
            align != 0,
            align & mask == 0,
            mask + 1 == align,
            below & mask == 0,
            above & mask == 0,
            above > below,
    ;
}

} // verus!
