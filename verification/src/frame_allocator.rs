use vstd::prelude::*;

use crate::address::{page_of, phys_page_round_down, phys_page_round_up, PhysPageNum};

verus! {

/// One past the largest page number that a machine word can address.
pub open spec fn page_limit() -> int {
    usize::MAX as int / 4096 + 1
}

/// A physical frame held by its owner.
///
/// Handing it back to the allocator is [`PhysFrame::release`].
pub struct PhysFrame {
    pub ppn: PhysPageNum,
}

impl PhysFrame {
    /// Wraps a page number without touching the page's contents.
    pub fn new_nonzero(ppn: PhysPageNum) -> (r: Self)
        ensures
            r.ppn == ppn,
    {
        Self { ppn: ppn }
    }

    /// Gives the frame back to the allocator it came from.
    pub fn release(self, allocator: &mut LinkedFrameAllocator)
        requires
            self.ppn.0 < old(allocator)@.current,
        ensures
            final(allocator)@ == old(allocator)@.dealloc_spec(self.ppn.0 as int),
    {
        dealloc_frame(allocator, self.ppn);
    }
}

/// What the allocator holds: the untouched pages `[current, end)` and the
/// stack of pages given back, whose top is handed out first.
pub struct FramePool {
    pub current: int,
    pub end: int,
    pub recycle: Seq<int>,
}

impl FramePool {
    /// An allocation can be served.
    pub open spec fn can_alloc(self) -> bool {
        self.current < self.end || self.recycle.len() > 0
    }

    /// How many allocations can be served in a row.
    pub open spec fn available(self) -> nat {
        (if self.current < self.end { self.end - self.current } else { 0int }) as nat
            + self.recycle.len()
    }

    /// Page `p` is waiting to be handed out.
    pub open spec fn is_free(self, p: int) -> bool {
        (self.current <= p < self.end) || self.recycle.contains(p)
    }

    /// One allocation: the next untouched page while there is one, else the
    /// page given back last.
    pub open spec fn alloc_spec(self) -> (FramePool, int) {
        if self.current < self.end {
            (FramePool { current: self.current + 1, ..self }, self.current)
        } else {
            (FramePool { recycle: self.recycle.drop_last(), ..self }, self.recycle.last())
        }
    }

    /// The pool after `n` allocations in a row.
    pub open spec fn after_allocs(self, n: nat) -> FramePool
        decreases n,
    {
        if n == 0 {
            self
        } else {
            self.alloc_spec().0.after_allocs((n - 1) as nat)
        }
    }

    /// The pages that `n` allocations in a row hand out, in order.
    pub open spec fn handed_out(self, n: nat) -> Seq<int>
        decreases n,
    {
        if n == 0 {
            Seq::empty()
        } else {
            seq![self.alloc_spec().1] + self.alloc_spec().0.handed_out((n - 1) as nat)
        }
    }

    /// Giving page `p` back.
    pub open spec fn dealloc_spec(self, p: int) -> FramePool {
        FramePool { recycle: self.recycle.push(p), ..self }
    }

    /// Giving the pages of `ps` back, in order.
    pub open spec fn dealloc_all(self, ps: Seq<int>) -> FramePool {
        FramePool { recycle: self.recycle + ps, ..self }
    }

    /// The bounds that the allocator keeps: page numbers that a machine word
    /// can address, and only pages below `current` given back.
    pub open spec fn wf(self) -> bool {
        &&& 0 <= self.current <= page_limit()
        &&& 0 <= self.end <= page_limit()
        &&& forall|i: int| 0 <= i < self.recycle.len() ==> 0 <= #[trigger] self.recycle[i] < self.current
    }

    /// No page was given back twice.
    pub open spec fn no_double_free(self) -> bool {
        self.recycle.no_duplicates()
    }
}

/// A frame allocator that hands out the pages from the end of the kernel to
/// the top of physical memory in order, then the pages given back.
pub struct LinkedFrameAllocator {
    current: usize,
    end: usize,
    recycle: Vec<PhysPageNum>,
}

impl View for LinkedFrameAllocator {
    type V = FramePool;

    closed spec fn view(&self) -> FramePool {
        FramePool {
            current: self.current as int,
            end: self.end as int,
            recycle: self.recycle@.map_values(|p: PhysPageNum| p.0 as int),
        }
    }
}

impl LinkedFrameAllocator {
    /// An allocator with nothing to hand out.
    pub fn new() -> (r: Self)
        ensures
            r@ == (FramePool { current: 0, end: 0, recycle: Seq::empty() }),
            r@.wf(),
    {
        let r = Self { current: 0, end: 0, recycle: Vec::new() };
        assert(r@.recycle =~= Seq::<int>::empty());
        r
    }

    /// Sets the untouched range to the pages from the one after the page
    /// that holds `kernel_end` up to the page that holds `phys_top`.
    pub fn init(&mut self, kernel_end: usize, phys_top: usize)
        ensures
            final(self)@ == (FramePool {
                current: page_of(kernel_end as int) + 1,
                end: page_of(phys_top as int),
                recycle: old(self)@.recycle,
            }),
            old(self)@.recycle.len() == 0 ==> final(self)@.wf(),
    {
        self.current = phys_page_round_up(kernel_end);
        self.end = phys_page_round_down(phys_top);
        assert(self@.recycle =~= old(self)@.recycle);
    }

    /// An allocation can be served.
    pub fn can_alloc(&self) -> (r: bool)
        ensures
            r == self@.can_alloc(),
    {
        self.current < self.end || self.recycle.len() > 0
    }

    /// The next untouched page; every page given back lies below it.
    pub fn current(&self) -> (r: usize)
        ensures
            r == self@.current,
    {
        self.current
    }

    /// How many pages wait on the stack of pages given back.
    pub fn recycled_count(&self) -> (r: usize)
        ensures
            r == self@.recycle.len(),
    {
        self.recycle.len()
    }

    /// The page just past the untouched range.
    pub fn end(&self) -> (r: usize)
        ensures
            r == self@.end,
    {
        self.end
    }

    /// At least `n` allocations can be served in a row.
    pub fn has_available(&self, n: usize) -> (r: bool)
        ensures
            r == (self@.available() >= n),
    {
        let untouched: usize = if self.current < self.end { self.end - self.current } else { 0 };
        if untouched >= n {
            true
        } else {
            self.recycle.len() >= n - untouched
        }
    }

    /// Hands out a page: the next untouched one while there is one, else
    /// the one given back last.
    pub fn alloc_page(&mut self) -> (r: PhysPageNum)
        requires
            old(self)@.can_alloc(),
        ensures
            (final(self)@, r.0 as int) == old(self)@.alloc_spec(),
    {
        if self.current < self.end {
            self.current += 1;
            let r = PhysPageNum(self.current - 1);
            assert(self@.recycle =~= old(self)@.recycle);
            r
        } else {
            let r = self.recycle.pop().unwrap();
            assert(self@.recycle =~= old(self)@.recycle.drop_last());
            r
        }
    }

    /// Takes a page back; it is handed out again once the untouched pages
    /// are used up.
    pub fn dealloc_page(&mut self, ppn: PhysPageNum)
        requires
            ppn.0 < old(self)@.current,
        ensures
            final(self)@ == old(self)@.dealloc_spec(ppn.0 as int),
    {
        self.recycle.push(ppn);
        assert(self@.recycle =~= old(self)@.recycle.push(ppn.0 as int));
    }
}

/// Takes a frame from the allocator. Its contents are left as they are:
/// clearing them is a write to physical memory, which the caller makes.
pub fn alloc_frame(allocator: &mut LinkedFrameAllocator) -> (r: PhysFrame)
    requires
        old(allocator)@.can_alloc(),
    ensures
        (final(allocator)@, r.ppn.0 as int) == old(allocator)@.alloc_spec(),
{
    let ret = allocator.alloc_page();
    PhysFrame::new_nonzero(ret)
}

/// Gives page `ppn` back to the allocator.
pub fn dealloc_frame(allocator: &mut LinkedFrameAllocator, ppn: PhysPageNum)
    requires
        ppn.0 < old(allocator)@.current,
    ensures
        final(allocator)@ == old(allocator)@.dealloc_spec(ppn.0 as int),
{
    allocator.dealloc_page(ppn);
}

/// A page given back while the untouched pages are used up is the next
/// page handed out, and the pool is then as it was before.
pub proof fn lemma_dealloc_then_alloc(pool: FramePool, p: int)
    requires
        pool.current >= pool.end,
    ensures
        pool.dealloc_spec(p).alloc_spec() == (pool, p),
{
    assert(pool.recycle.push(p).drop_last() =~= pool.recycle);
}

/// An allocation hands out a page that was free and is free no longer,
/// leaves every other page as free as it was, keeps the pool's bounds and
/// uses up one allocation.
pub proof fn lemma_alloc_takes_a_free_page(pool: FramePool)
    requires
        pool.wf(),
        pool.no_double_free(),
        pool.can_alloc(),
    ensures
        ({
            let (next, p) = pool.alloc_spec();
            &&& pool.is_free(p)
            &&& !next.is_free(p)
            &&& forall|q: int| q != p ==> next.is_free(q) == pool.is_free(q)
            &&& next.wf()
            &&& next.no_double_free()
            &&& next.available() + 1 == pool.available()
            &&& 0 <= p < next.current
        }),
{
    let (next, p) = pool.alloc_spec();
    if pool.current < pool.end {
        if pool.recycle.contains(p) {
            let i = choose|i: int| 0 <= i < pool.recycle.len() && pool.recycle[i] == p;
            assert(pool.recycle[i] < pool.current);
        }
    } else {
        let r = pool.recycle;
        let last = r.len() - 1;
        assert(r[last] == p);
        assert(r.contains(p));
        if r.drop_last().contains(p) {
            let i = choose|i: int| 0 <= i < r.drop_last().len() && r.drop_last()[i] == p;
            assert(r[i] == r[last]);
        }
        assert forall|q: int| q != p implies next.is_free(q) == pool.is_free(q) by {
            if r.contains(q) {
                let i = choose|i: int| 0 <= i < r.len() && r[i] == q;
                assert(i != last);
                assert(r.drop_last()[i] == q);
            }
        }
    }
}

/// Two allocations in a row hand out two different pages.
pub proof fn lemma_allocs_distinct(pool: FramePool)
    requires
        pool.wf(),
        pool.no_double_free(),
        pool.available() >= 2,
    ensures
        pool.alloc_spec().1 != pool.alloc_spec().0.alloc_spec().1,
{
    lemma_alloc_takes_a_free_page(pool);
    let next = pool.alloc_spec().0;
    assert(next.can_alloc());
    lemma_alloc_takes_a_free_page(next);
}

/// Giving back a page that is not free makes it free, leaves every other
/// page as free as it was, keeps the pool's bounds, and adds one allocation.
pub proof fn lemma_dealloc_frees_the_page(pool: FramePool, p: int)
    requires
        pool.wf(),
        pool.no_double_free(),
        0 <= p < pool.current,
        !pool.is_free(p),
    ensures
        ({
            let next = pool.dealloc_spec(p);
            &&& next.is_free(p)
            &&& forall|q: int| q != p ==> next.is_free(q) == pool.is_free(q)
            &&& next.wf()
            &&& next.no_double_free()
            &&& next.available() == pool.available() + 1
        }),
{
    let next = pool.dealloc_spec(p);
    let r = pool.recycle;
    assert(next.recycle[r.len() as int] == p);
    assert forall|q: int| q != p implies next.is_free(q) == pool.is_free(q) by {
        if next.recycle.contains(q) {
            let i = choose|i: int| 0 <= i < next.recycle.len() && next.recycle[i] == q;
            assert(r[i] == q);
        }
        if r.contains(q) {
            let i = choose|i: int| 0 <= i < r.len() && r[i] == q;
            assert(next.recycle[i] == q);
        }
    }
    assert forall|i: int, j: int| 0 <= i < j < next.recycle.len() implies next.recycle[i] != next.recycle[j] by {
        if j == r.len() {
            assert(r[i] == next.recycle[i]);
        }
    }
}

/// A page handed out and given back straight away leaves the pool with as
/// many allocations as before, and the same free pages.
pub proof fn lemma_alloc_then_dealloc(pool: FramePool)
    requires
        pool.wf(),
        pool.no_double_free(),
        pool.can_alloc(),
    ensures
        ({
            let (next, p) = pool.alloc_spec();
            &&& 0 <= p < next.current
            &&& next.dealloc_spec(p).available() == pool.available()
            &&& forall|q: int| next.dealloc_spec(p).is_free(q) == pool.is_free(q)
        }),
{
    lemma_alloc_takes_a_free_page(pool);
    let (next, p) = pool.alloc_spec();
    lemma_dealloc_frees_the_page(next, p);
}

/// Allocations in two runs are allocations in one run: the pool after `a`
/// then `b` allocations is the pool after `a + b`, and the pages handed out
/// are those of the first run followed by those of the second.
pub proof fn lemma_allocs_compose(pool: FramePool, a: nat, b: nat)
    ensures
        pool.after_allocs(a).after_allocs(b) == pool.after_allocs(a + b),
        pool.handed_out(a) + pool.after_allocs(a).handed_out(b) == pool.handed_out(a + b),
    decreases a,
{
    if a == 0 {
        assert(pool.handed_out(0) + pool.handed_out(b) =~= pool.handed_out(b));
    } else {
        let next = pool.alloc_spec().0;
        lemma_allocs_compose(next, (a - 1) as nat, b);
        assert((a - 1) as nat + b == (a + b - 1) as nat);
        assert(pool.handed_out(a) + pool.after_allocs(a).handed_out(b) =~= seq![pool.alloc_spec().1] + (
        next.handed_out((a - 1) as nat) + next.after_allocs((a - 1) as nat).handed_out(b)));
    }
}

/// An allocation that can be served uses up one allocation.
pub proof fn lemma_alloc_uses_one(pool: FramePool)
    requires
        pool.can_alloc(),
    ensures
        pool.alloc_spec().0.available() + 1 == pool.available(),
{
}

/// A run of `n` allocations that can all be served keeps the pool's bounds,
/// uses up `n` allocations, and leaves a page that was not free not free.
pub proof fn lemma_allocs_keep_used_pages(pool: FramePool, n: nat)
    requires
        pool.wf(),
        pool.no_double_free(),
        pool.available() >= n,
    ensures
        pool.after_allocs(n).wf(),
        pool.after_allocs(n).no_double_free(),
        pool.after_allocs(n).available() + n == pool.available(),
        forall|q: int| !pool.is_free(q) ==> !#[trigger] pool.after_allocs(n).is_free(q),
    decreases n,
{
    if n > 0 {
        lemma_alloc_takes_a_free_page(pool);
        let next = pool.alloc_spec().0;
        lemma_allocs_keep_used_pages(next, (n - 1) as nat);
        assert forall|q: int| !pool.is_free(q) implies !#[trigger] pool.after_allocs(n).is_free(q) by {
            assert(!next.is_free(q));
            assert(!next.after_allocs((n - 1) as nat).is_free(q));
        }
    }
}

/// While untouched pages remain, an allocation hands out the next one,
/// moves past it and leaves the pages given back as they are, however many
/// there are.
pub proof fn lemma_alloc_takes_untouched_first(pool: FramePool)
    requires
        pool.current < pool.end,
    ensures
        pool.alloc_spec().1 == pool.current,
        pool.alloc_spec().0.current == pool.current + 1,
        pool.alloc_spec().0.end == pool.end,
        pool.alloc_spec().0.recycle == pool.recycle,
{
}

/// Once the untouched pages are used up, an allocation hands out the page
/// given back last and takes it off the stack; the untouched range stays.
pub proof fn lemma_alloc_takes_last_given_back(pool: FramePool)
    requires
        pool.current >= pool.end,
        pool.recycle.len() > 0,
    ensures
        pool.alloc_spec().1 == pool.recycle[pool.recycle.len() - 1],
        pool.alloc_spec().0.recycle =~= pool.recycle.subrange(0, pool.recycle.len() - 1),
        pool.alloc_spec().0.current == pool.current,
        pool.alloc_spec().0.end == pool.end,
{
}

/// Pages given back while untouched pages remain wait: the next allocation
/// still hands out the next untouched page.
pub proof fn lemma_given_back_pages_wait(pool: FramePool, ps: Seq<int>)
    requires
        pool.current < pool.end,
    ensures
        pool.dealloc_all(ps).alloc_spec().1 == pool.current,
        pool.dealloc_all(ps).alloc_spec().0.recycle == pool.recycle + ps,
{
}

} // verus!
