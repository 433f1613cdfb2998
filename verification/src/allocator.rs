//! The boot manager's heap: a bump allocator over 1 MiB at 4 MiB that never
//! frees.
use vstd::prelude::*;

verus! {

pub const HEAP_START: usize = 0x400000;

pub const HEAP_SIZE: usize = 0x100000;

/// A bump allocator: blocks are cut from the front of what is left, each
/// aligned as asked; nothing is freed.
pub struct BumpAllocator {
    heap_start: usize,
    heap_end: usize,
    next: usize,
}

/// The heap's bounds and where the next block may start.
pub struct HeapView {
    pub heap_start: int,
    pub heap_end: int,
    pub next: int,
}

impl View for BumpAllocator {
    type V = HeapView;

    closed spec fn view(&self) -> HeapView {
        HeapView {
            heap_start: self.heap_start as int,
            heap_end: self.heap_end as int,
            next: self.next as int,
        }
    }
}

/// The smallest multiple of `align` that is at least `x`.
pub open spec fn align_up(x: int, align: int) -> int {
    if x % align == 0 {
        x
    } else {
        x + (align - x % align)
    }
}

/// The block for `size` bytes aligned to `align`: its start, if it fits
/// before the heap's end.
pub open spec fn block_for(h: HeapView, size: int, align: int) -> Option<int> {
    let start = align_up(h.next, align);
    if start + size <= h.heap_end {
        Some(start)
    } else {
        None
    }
}

/// The heap's bounds are in order and the next block starts within them.
pub open spec fn heap_wf(h: HeapView) -> bool {
    h.heap_start <= h.next <= h.heap_end
}

impl BumpAllocator {
    /// The heap at 0x400000, 1 MiB long, empty.
    pub fn new() -> (r: Self)
        ensures
            r@.heap_start == HEAP_START,
            r@.heap_end == HEAP_START + HEAP_SIZE,
            r@.next == HEAP_START,
            heap_wf(r@),
    {
        BumpAllocator { heap_start: HEAP_START, heap_end: HEAP_START + HEAP_SIZE, next: HEAP_START }
    }

    /// Cuts a block of `size` bytes aligned to `align` (non-zero) from the
    /// heap: its address, or `None` (a null pointer) when it does not fit;
    /// then the heap is unchanged.
    pub fn allocate(&mut self, size: usize, align: usize) -> (r: Option<usize>)
        requires
            heap_wf(old(self)@),
            align > 0,
        ensures
            r == match block_for(old(self)@, size as int, align as int) {
                Some(s) => Some(s as usize),
                None => None::<usize>,
            },
            match r {
                Some(s) => final(self)@ == (HeapView { next: s + size, ..old(self)@ }),
                None => final(self)@ == old(self)@,
            },
            heap_wf(final(self)@),
    {
        let rem = self.next % align;
        let pad = if rem == 0 {
            0
        } else {
            align - rem
        };
        let start = match self.next.checked_add(pad) {
            Some(s) => s,
            None => return None,
        };
        let end = match start.checked_add(size) {
            Some(e) => e,
            None => return None,
        };
        if end > self.heap_end {
            return None;
        }
        self.next = end;
        Some(start)
    }

    /// Freeing does nothing.
    pub fn dealloc(&mut self, addr: usize, size: usize)
        ensures
            final(self)@ == old(self)@,
    {
    }
}

/// Setting up the heap needs nothing at run time: the allocator starts
/// empty.
pub fn init() {
}

/// Two blocks cut one after the other do not overlap, and each lies within
/// the heap, aligned as asked.
pub proof fn law_blocks_disjoint(h: HeapView, s1: int, a1: int, s2: int, a2: int)
    requires
        heap_wf(h),
        s1 >= 0,
        s2 >= 0,
        a1 > 0,
        a2 > 0,
        block_for(h, s1, a1) is Some,
        block_for(HeapView { next: block_for(h, s1, a1)->0 + s1, ..h }, s2, a2) is Some,
    ensures
        ({
            let b1 = block_for(h, s1, a1)->0;
            let h2 = HeapView { next: b1 + s1, ..h };
            let b2 = block_for(h2, s2, a2)->0;
            &&& b1 + s1 <= b2
            &&& h.heap_start <= b1
            &&& b2 + s2 <= h.heap_end
            &&& b1 % a1 == 0
            &&& b2 % a2 == 0
        }),
{
    let b1 = block_for(h, s1, a1)->0;
    lemma_align_up(h.next, a1);
    let h2 = HeapView { next: b1 + s1, ..h };
    lemma_align_up(h2.next, a2);
}

/// The mask formula for rounding `next` up to `align`:
/// `(next + align - 1) & !(align - 1)`.
pub open spec fn mask_align(next: u64, align: u64) -> u64 {
    ((next + (align - 1)) as u64) & !((align - 1) as u64)
}

/// For an alignment that is a power of two, `2` to the `k`, rounding up is
/// the mask formula: the block for `size` bytes starts there when it fits
/// before the heap's end.
pub proof fn law_power_of_two_alignment(h: HeapView, size: int, next: u64, align: u64, k: nat)
    requires
        h.next == next as int,
        k < 64,
        align as nat == vstd::arithmetic::power2::pow2(k),
        next as int + align as int - 1 <= u64::MAX,
    ensures
        align_up(next as int, align as int) == mask_align(next, align) as int,
        block_for(h, size, align as int) == if mask_align(next, align) as int + size <= h.heap_end {
            Some(mask_align(next, align) as int)
        } else {
            None
        },
{
    vstd::arithmetic::power2::lemma_pow2_pos(k);
    let m: u64 = (align - 1) as u64;
    let t: u64 = (next + m) as u64;
    let r: u64 = next % align;
    vstd::bits::lemma_u64_low_bits_mask_is_mod(next, k);
    assert(vstd::bits::low_bits_mask(k) as u64 == m);
    assert(r == (next & m));
    assert(align & m == 0) by {
        vstd::bits::lemma_u64_low_bits_mask_is_mod(align, k);
    }
    assert(r == 0 ==> next == (t & !m)) by (bit_vector)
        requires
            r == (next & m),
            align > 0,
            align & m == 0,
            m == align - 1,
            next <= 0xFFFF_FFFF_FFFF_FFFF - m,
            t == next + m,
    ;
    assert(r != 0 ==> next + (align - r) == (t & !m)) by (bit_vector)
        requires
            r == (next & m),
            align > 0,
            align & m == 0,
            m == align - 1,
            next <= 0xFFFF_FFFF_FFFF_FFFF - m,
            t == next + m,
    ;
    assert(mask_align(next, align) == t & !m);
}

proof fn lemma_align_up(x: int, a: int)
    requires
        a > 0,
    ensures
        align_up(x, a) % a == 0,
        x <= align_up(x, a),
{
    vstd::arithmetic::div_mod::lemma_fundamental_div_mod(x, a);
    let q = x / a;
    let r = x % a;
    assert(0 <= r < a) by {
        vstd::arithmetic::div_mod::lemma_mod_bound(x, a);
    }
    if r != 0 {
        assert(x + (a - r) == (q + 1) * a) by (nonlinear_arith)
            requires
                x == a * q + r,
        ;
        vstd::arithmetic::div_mod::lemma_mod_multiples_basic(q + 1, a);
    }
}

} // verus!
