use vstd::prelude::*;

verus! {

/// Whether `p` is a power of two.
pub open spec fn is_pow2(p: int) -> bool
    decreases p,
{
    if p <= 0 {
        false
    } else if p == 1 {
        true
    } else {
        p % 2 == 0 && is_pow2(p / 2)
    }
}

/// The first of `p`, `2p`, `4p`, ... that is at least `n`.
pub open spec fn double_until(p: int, n: int) -> int
    decreases 2 * n - p,
{
    if p <= 0 || p >= n {
        p
    } else {
        double_until(2 * p, n)
    }
}

/// The least power of two that is at least `n`.
pub open spec fn round_up(n: int) -> int {
    double_until(1, n)
}

/// Largest request that can be rounded up to a power of two in a `usize`.
pub open spec fn max_request() -> int {
    usize::MAX as int / 2 + 1
}

/// The least power of two that is at least `num`.
pub fn next_power_of_two(num: usize) -> (r: usize)
    requires
        1 <= num <= max_request(),
    ensures
        r as int == round_up(num as int),
        is_pow2(r as int),
        num <= r < 2 * num,
{
    let mut p: usize = 1;
    while p < num
        invariant
            1 <= p,
            1 <= num <= max_request(),
            is_pow2(p as int),
            p < 2 * num,
            double_until(p as int, num as int) == round_up(num as int),
        decreases 2 * num - p,
    {
        assert(is_pow2(2 * p as int));
        p = p * 2;
    }
    p
}

/// A bump allocator over the arena `pos .. end`: it hands out the bytes at
/// the cursor `pos` and moves the cursor on; nothing is ever given back.
#[derive(Debug, Clone, Copy, PartialEq, Eq, Structural)]
pub struct GlobalAllocator {
    pub pos: usize,
    pub end: usize,
}

/// The result of an allocation of `size` bytes from `a`, and the allocator
/// after it: the request is rounded up to a power of two and taken at the
/// cursor, or refused, with nothing changed, when it does not fit.
pub open spec fn alloc_step(a: GlobalAllocator, size: usize) -> (Option<usize>, GlobalAllocator) {
    if size as int > max_request() || a.pos + round_up(size as int) > a.end {
        (None, a)
    } else {
        (Some(a.pos), GlobalAllocator { pos: (a.pos + round_up(size as int)) as usize, end: a.end })
    }
}

impl GlobalAllocator {
    /// Whether the cursor lies inside the arena.
    pub open spec fn wf(&self) -> bool {
        self.pos <= self.end
    }

    /// An allocator with an empty arena, which refuses every request.
    pub fn new() -> (r: GlobalAllocator)
        ensures
            r.wf(),
            r.pos == 0,
            r.end == 0,
    {
        GlobalAllocator { pos: 0, end: 0 }
    }

    /// Gives the allocator the arena `start .. end`.
    pub fn init(&mut self, start: usize, end: usize)
        requires
            start <= end,
        ensures
            final(self).wf(),
            final(self).pos == start,
            final(self).end == end,
    {
        self.pos = start;
        self.end = end;
    }

    /// Takes `size` bytes, rounded up to a power of two, at the cursor.
    pub fn allocate(&mut self, size: usize) -> (r: Option<usize>)
        requires
            old(self).wf(),
            size >= 1,
        ensures
            final(self).wf(),
            (r, *final(self)) == alloc_step(*old(self), size),
    {
        if size > usize::MAX / 2 + 1 {
            return None;
        }
        let rounded = next_power_of_two(size);
        if rounded > self.end - self.pos {
            return None;
        }
        let base = self.pos;
        self.pos = self.pos + rounded;
        Some(base)
    }

    /// Zeroes the rounded-up span of a block that `allocate` gave out for
    /// `size` bytes; the arena does not get the space back.
    pub fn dealloc(&self, block: &mut [u8], size: usize)
        requires
            1 <= size <= max_request(),
            round_up(size as int) <= old(block)@.len(),
        ensures
            final(block)@.len() == old(block)@.len(),
            forall|i: int| 0 <= i < round_up(size as int) ==> #[trigger] final(block)@[i] == 0u8,
            forall|i: int| round_up(size as int) <= i < old(block)@.len() ==> #[trigger] final(block)@[i] == old(block)@[i],
    {
        let rounded = next_power_of_two(size);
        let mut i: usize = 0;
        while i < rounded
            invariant
                rounded as int == round_up(size as int),
                rounded <= block@.len() == old(block)@.len(),
                i <= rounded,
                forall|j: int| 0 <= j < i ==> #[trigger] block@[j] == 0u8,
                forall|j: int| rounded <= j < block@.len() ==> #[trigger] block@[j] == old(block)@[j],
            decreases rounded - i,
        {
            block[i] = 0;
            i += 1;
        }
    }
}

proof fn lemma_double_until_grows(p: int, n: int)
    requires
        p >= 1,
    ensures
        double_until(p, n) >= p,
    decreases 2 * n - p,
{
    if p < n {
        lemma_double_until_grows(2 * p, n);
    }
}

/// Two allocations in a row never overlap and the cursor never moves back:
/// the second block starts at or after the end of the first.
pub proof fn lemma_successive_allocations(a: GlobalAllocator, s1: usize, s2: usize)
    requires
        a.wf(),
        s1 >= 1,
        s2 >= 1,
    ensures
        ({
            let (r1, a1) = alloc_step(a, s1);
            let (r2, a2) = alloc_step(a1, s2);
            &&& a.pos <= a1.pos <= a2.pos
            &&& a2.end == a.end
            &&& (r1 is Some && r2 is Some) ==> r1->Some_0 + round_up(s1 as int) <= r2->Some_0
        }),
{
    lemma_double_until_grows(1, s1 as int);
    lemma_double_until_grows(1, s2 as int);
}

/// An allocator over the arena `start .. end`.
pub fn init(start: usize, end: usize) -> (r: GlobalAllocator)
    requires
        start <= end,
    ensures
        r.wf(),
        r.pos == start,
        r.end == end,
{
    let mut a = GlobalAllocator::new();
    a.init(start, end);
    a
}

} // verus!
