//! The page half of the early allocator: pages come from a bitmap of one
//! million page frames.
//!
//! The bitmap is modelled by the set of its free indices, `bitmap_free`.
//! Page `i` of the managed region lies at address `base + i * PAGE_SIZE`.

use vstd::prelude::*;
use vstd::arithmetic::power::pow;
use vstd::set_lib::{lemma_int_range, lemma_set_difference_len, set_int_range};
use vstd::arithmetic::power2::{is_pow2, is_pow2_equiv, lemma_pow2_pos, pow2};
use bitmap_allocator::{BitAlloc, BitAlloc1M};

verus! {

/// A `BitAlloc1M` of the `bitmap_allocator` crate. Verus does not accept a
/// declaration of its type (the type's parameter is bound by the crate's own
/// trait), so it is held here out of Verus's sight and reached only through
/// the functions below.
#[verifier::external_body]
pub struct PageBitmap {
    bits: BitAlloc1M,
}

/// The number of page frames a `BitAlloc1M` holds.
pub const BITMAP_CAP: usize = 0x10_0000;

/// The indices that the bitmap holds as free.
pub uninterp spec fn bitmap_free(b: PageBitmap) -> Set<int>;

/// Whether every free index of `b` is below the capacity.
pub open spec fn bitmap_in_range(b: PageBitmap) -> bool {
    forall|i: int| #[trigger] bitmap_free(b).contains(i) ==> 0 <= i < BITMAP_CAP
}

/// The indices from `start` up to, but not including, `end`.
pub open spec fn index_range(start: int, end: int) -> Set<int> {
    Set::new(|i: int| start <= i < end)
}

/// `BitAlloc1M::DEFAULT`: a bitmap with no free index (every bit of it and
/// of its sub-bitmaps is 0).
#[verifier::external_body]
fn bitmap_new() -> (b: PageBitmap)
    ensures
        bitmap_free(b) == Set::<int>::empty(),
        bitmap_in_range(b),
{
    PageBitmap { bits: BitAlloc1M::DEFAULT }
}

/// `BitAlloc::insert` on a `BitAlloc1M`: marks the indices of
/// `start..end` free. It asserts `start <= end <= CAP`, and computes `end - 1`,
/// which fails for `end == 0`.
#[verifier::external_body]
fn bitmap_insert(b: &mut PageBitmap, start: usize, end: usize)
    requires
        start <= end,
        0 < end <= BITMAP_CAP,
    ensures
        bitmap_free(*final(b)) == bitmap_free(*old(b)).union(index_range(start as int, end as int)),
        bitmap_in_range(*final(b)),
{
    b.bits.insert(start..end)
}

/// `BitAlloc::alloc` on a `BitAlloc1M`: takes the lowest free index, or
/// gives `None` and changes nothing when none is free.
#[verifier::external_body]
fn bitmap_alloc(b: &mut PageBitmap) -> (r: Option<usize>)
    ensures
        bitmap_in_range(*final(b)),
        bitmap_free(*old(b)).is_empty() ==> r is None && *final(b) == *old(b),
        !bitmap_free(*old(b)).is_empty() ==> (r matches Some(i) && {
            &&& bitmap_free(*old(b)).contains(i as int)
            &&& forall|j: int| #[trigger] bitmap_free(*old(b)).contains(j) ==> i <= j
            &&& bitmap_free(*final(b)) == bitmap_free(*old(b)).remove(i as int)
        }),
{
    b.bits.alloc()
}

/// Whether `size` free indices from `base` on fit in `free`, with `base`
/// aligned to `2^align_log2` and the run below the capacity.
pub open spec fn run_fits(free: Set<int>, base: int, size: int, align_log2: nat) -> bool {
    &&& base >= 0
    &&& base % pow2(align_log2) as int == 0
    &&& base + size <= BITMAP_CAP
    &&& forall|i: int| base <= i < base + size ==> #[trigger] free.contains(i)
}

/// Whether `alloc_contiguous(size, align_log2)` finds a run: the size is
/// positive, the alignment is not above the capacity and some aligned run of
/// free indices fits.
pub open spec fn run_exists(free: Set<int>, size: int, align_log2: nat) -> bool {
    &&& size >= 1
    &&& pow2(align_log2) <= BITMAP_CAP
    &&& exists|base: int| run_fits(free, base, size, align_log2)
}

/// `BitAlloc::alloc_contiguous` on a `BitAlloc1M`: scans upwards for the
/// lowest aligned run of `size` free indices and takes it. The scan gives up
/// at once when `1 << align_log2` exceeds the capacity, and never matches a
/// run of size 0. It computes `1 << align_log2` on `usize`, which fails from
/// the width of `usize` on.
#[verifier::external_body]
fn bitmap_alloc_contiguous(b: &mut PageBitmap, size: usize, align_log2: usize) -> (r: Option<
    usize,
>)
    requires
        align_log2 < usize::BITS,
    ensures
        bitmap_in_range(*final(b)),
        !run_exists(bitmap_free(*old(b)), size as int, align_log2 as nat)
            ==> r is None && *final(b) == *old(b),
        run_exists(bitmap_free(*old(b)), size as int, align_log2 as nat) ==> (r matches Some(base) && {
            &&& run_fits(bitmap_free(*old(b)), base as int, size as int, align_log2 as nat)
            &&& forall|other: int| #[trigger]
                run_fits(bitmap_free(*old(b)), other, size as int, align_log2 as nat) ==> base <= other
            &&& bitmap_free(*final(b)) == bitmap_free(*old(b)).difference(
                index_range(base as int, base + size),
            )
        }),
{
    b.bits.alloc_contiguous(size, align_log2)
}

/// `BitAlloc::dealloc` on a `BitAlloc1M`: marks `key` free again. It indexes
/// a sub-bitmap by `key`, which fails from the capacity on, and asserts that
/// `key` is not free already.
#[verifier::external_body]
fn bitmap_dealloc(b: &mut PageBitmap, key: usize)
    requires
        key < BITMAP_CAP,
        !bitmap_free(*old(b)).contains(key as int),
    ensures
        bitmap_free(*final(b)) == bitmap_free(*old(b)).insert(key as int),
        bitmap_in_range(*final(b)),
{
    b.bits.dealloc(key)
}

/// `BitAlloc::test` on a `BitAlloc1M`: whether `key` is free. It indexes a
/// sub-bitmap by `key`, which fails from the capacity on.
#[verifier::external_body]
fn bitmap_test(b: &PageBitmap, key: usize) -> (r: bool)
    requires
        key < BITMAP_CAP,
    ensures
        r == bitmap_free(*b).contains(key as int),
{
    b.bits.test(key)
}

/// `usize::is_power_of_two`: whether `n` is `2^k` for some `k`.
#[verifier::external_body]
fn usize_is_power_of_two(n: usize) -> (r: bool)
    ensures
        r == is_pow2(n as int),
{
    n.is_power_of_two()
}

/// The smallest heap size; the base of an allocator before `init`.
pub const MIN_HEAP_SIZE: usize = 0x8000;

/// Why an allocation request fails.
#[derive(Debug, Clone, Copy, PartialEq, Eq, Structural)]
pub enum AllocError {
    /// A parameter is not valid.
    InvalidParam,
    /// A memory region overlaps one already added.
    MemoryOverlap,
    /// Not enough memory is free.
    NoMemory,
    /// The memory being freed was not allocated.
    NotAllocated,
}

/// The result of an allocator operation.
pub type AllocResult<T = ()> = Result<T, AllocError>;

/// `pos` rounded down to a multiple of `align`.
pub open spec fn align_down_spec(pos: int, align: int) -> int {
    pos - pos % align
}

/// `pos` rounded up to a multiple of `align`.
pub open spec fn align_up_spec(pos: int, align: int) -> int {
    align_down_spec(pos + align - 1, align)
}

/// Rounds `pos` down to a multiple of `align`.
pub fn align_down(pos: usize, align: usize) -> (r: usize)
    requires
        align > 0,
    ensures
        r == align_down_spec(pos as int, align as int),
{
    assert(pos % align <= pos) by (nonlinear_arith)
        requires
            align > 0,
    ;
    pos - pos % align
}

/// Rounds `pos` up to a multiple of `align`.
pub fn align_up(pos: usize, align: usize) -> (r: usize)
    requires
        align > 0,
        pos + align - 1 <= usize::MAX,
    ensures
        r == align_up_spec(pos as int, align as int),
{
    align_down(pos + (align - 1), align)
}

/// The abstract state of the page allocator.
pub struct PageState {
    /// The indices of the free pages.
    pub free: Set<int>,
    /// The address of page 0.
    pub base: int,
    pub total_pages: int,
    pub used_pages: int,
}

/// The early allocator's page state: a bitmap of free pages, the address of
/// page 0, and the page counters.
pub struct EarlyAllocator<const PAGE_SIZE: usize> {
    inner2: PageBitmap,
    base: usize,
    total_pages: usize,
    used_pages: usize,
}

impl<const PAGE_SIZE: usize> View for EarlyAllocator<PAGE_SIZE> {
    type V = PageState;

    closed spec fn view(&self) -> PageState {
        PageState {
            free: bitmap_free(self.inner2),
            base: self.base as int,
            total_pages: self.total_pages as int,
            used_pages: self.used_pages as int,
        }
    }
}

/// The lowest free index.
pub open spec fn lowest_free(free: Set<int>) -> int {
    choose|i: int| #[trigger] free.contains(i) && forall|j: int| #[trigger] free.contains(j) ==> i <= j
}

/// The lowest base of an aligned run of `size` free indices.
pub open spec fn lowest_run(free: Set<int>, size: int, align_log2: nat) -> int {
    choose|b: int| #[trigger] run_fits(free, b, size, align_log2) && forall|o: int| #[trigger]
        run_fits(free, o, size, align_log2) ==> b <= o
}

/// The bitmap index of the page at address `pos`.
pub open spec fn page_index(s: PageState, page_size: int, pos: int) -> int {
    (pos - s.base) / page_size
}

/// The address of page `i`.
pub open spec fn page_addr(s: PageState, page_size: int, i: int) -> int {
    s.base + i * page_size
}

/// Whether a page request is valid: the alignment is a power-of-two
/// multiple of the page size and at least one page is asked for.
pub open spec fn request_valid(page_size: int, num_pages: int, align_pow2: int) -> bool {
    &&& align_pow2 % page_size == 0
    &&& is_pow2(align_pow2 / page_size)
    &&& num_pages >= 1
}

/// Whether the bitmap can serve a valid request: a single page needs any
/// free page, more need an aligned free run. The alignment of a run is given
/// to the bitmap as `align_pow2 / page_size` in place of its logarithm.
pub open spec fn request_served(s: PageState, page_size: int, num_pages: int, align_pow2: int) -> bool {
    if num_pages == 1 {
        !s.free.is_empty()
    } else {
        run_exists(s.free, num_pages, (align_pow2 / page_size) as nat)
    }
}

/// The first page index that a served request gets.
pub open spec fn request_index(s: PageState, page_size: int, num_pages: int, align_pow2: int) -> int {
    if num_pages == 1 {
        lowest_free(s.free)
    } else {
        lowest_run(s.free, num_pages, (align_pow2 / page_size) as nat)
    }
}

/// The pages that a served request takes.
pub open spec fn request_pages(s: PageState, page_size: int, num_pages: int, align_pow2: int) -> Set<int> {
    let first = request_index(s, page_size, num_pages, align_pow2);
    index_range(first, first + num_pages)
}

/// The state after `alloc_pages` served a request.
pub open spec fn after_alloc(s: PageState, page_size: int, num_pages: int, align_pow2: int) -> PageState {
    PageState {
        free: s.free.difference(request_pages(s, page_size, num_pages, align_pow2)),
        used_pages: s.used_pages + num_pages,
        ..s
    }
}

proof fn lemma_lowest_unique(free: Set<int>, i: int)
    requires
        free.contains(i),
        forall|j: int| #[trigger] free.contains(j) ==> i <= j,
    ensures
        lowest_free(free) == i,
{
    let l = lowest_free(free);
    assert(free.contains(l) && forall|j: int| #[trigger] free.contains(j) ==> l <= j);
}

proof fn lemma_lowest_run_unique(free: Set<int>, size: int, align_log2: nat, b: int)
    requires
        run_fits(free, b, size, align_log2),
        forall|o: int| #[trigger] run_fits(free, o, size, align_log2) ==> b <= o,
    ensures
        lowest_run(free, size, align_log2) == b,
{
    let l = lowest_run(free, size, align_log2);
    assert(run_fits(free, l, size, align_log2) && forall|o: int| #[trigger]
        run_fits(free, o, size, align_log2) ==> l <= o);
}

impl<const PAGE_SIZE: usize> EarlyAllocator<PAGE_SIZE> {
    /// The allocator's own invariant: the bitmap holds no index beyond its
    /// capacity.
    pub closed spec fn wf(&self) -> bool {
        bitmap_in_range(self.inner2)
    }

    /// An allocator with no pages, based at [`MIN_HEAP_SIZE`].
    pub fn new() -> (r: Self)
        ensures
            r.wf(),
            r@ == (PageState { free: Set::empty(), base: MIN_HEAP_SIZE as int, total_pages: 0, used_pages: 0 }),
    {
        Self { inner2: bitmap_new(), base: MIN_HEAP_SIZE, total_pages: 0, used_pages: 0 }
    }

    /// The number of pages handed to [`EarlyAllocator::init`].
    pub fn total_pages(&self) -> (r: usize)
        ensures
            r == self@.total_pages,
    {
        self.total_pages
    }

    /// The number of pages allocated and not freed.
    pub fn used_pages(&self) -> (r: usize)
        ensures
            r == self@.used_pages,
    {
        self.used_pages
    }

    /// The number of pages that remain.
    pub fn available_pages(&self) -> (r: usize)
        requires
            self@.used_pages <= self@.total_pages,
        ensures
            r == self@.total_pages - self@.used_pages,
    {
        self.total_pages - self.used_pages
    }

    /// Whether the page at `pos` is free: `None` where `pos` lies below page
    /// 0 or beyond the bitmap, which [`EarlyAllocator::dealloc_pages`] does
    /// not take; the test to make before it.
    pub fn page_is_free(&self, pos: usize) -> (r: Option<bool>)
        requires
            PAGE_SIZE > 0,
        ensures
            r is None <==> pos < self@.base || page_index(self@, PAGE_SIZE as int, pos as int)
                >= BITMAP_CAP,
            r matches Some(b) ==> b == self@.free.contains(
                page_index(self@, PAGE_SIZE as int, pos as int),
            ),
    {
        if pos < self.base {
            return None;
        }
        let key = (pos - self.base) / PAGE_SIZE;
        if key >= BITMAP_CAP {
            return None;
        }
        Some(bitmap_test(&self.inner2, key))
    }

    /// Whether the address of every page the bitmap can hold fits in a word;
    /// where it does, no request that [`EarlyAllocator::alloc_pages`] serves
    /// overflows its address (see [`lemma_alloc_takes_free_pages`]).
    pub fn page_addresses_fit(&self) -> (r: bool)
        requires
            PAGE_SIZE > 0,
        ensures
            r == (page_addr(self@, PAGE_SIZE as int, BITMAP_CAP - 1) <= usize::MAX),
            r ==> forall|i: int|
                0 <= i < BITMAP_CAP ==> #[trigger] page_addr(self@, PAGE_SIZE as int, i) <= usize::MAX,
    {
        proof {
            assert forall|i: int| 0 <= i < BITMAP_CAP implies #[trigger] page_addr(
                self@,
                PAGE_SIZE as int,
                i,
            ) <= page_addr(self@, PAGE_SIZE as int, BITMAP_CAP - 1) by {
                assert(i * PAGE_SIZE <= (BITMAP_CAP - 1) * PAGE_SIZE) by (nonlinear_arith)
                    requires
                        0 <= i <= BITMAP_CAP - 1,
                        PAGE_SIZE > 0,
                ;
            }
        }
        match (BITMAP_CAP - 1).checked_mul(PAGE_SIZE) {
            None => false,
            Some(span) => self.base.checked_add(span).is_some(),
        }
    }

    /// Hands the memory `start..start + size` to the page allocator: the
    /// whole pages inside it become pages `0..total_pages`, all free, with
    /// page 0 at `start` rounded up to the page size.
    pub fn init(&mut self, start: usize, size: usize)
        requires
            old(self).wf(),
            is_pow2(PAGE_SIZE as int),
            start + size <= usize::MAX,
            start + PAGE_SIZE - 1 <= usize::MAX,
            align_up_spec(start as int, PAGE_SIZE as int) <= align_down_spec(
                start + size,
                PAGE_SIZE as int,
            ),
            init_pages(start as int, size as int, PAGE_SIZE as int) >= 1,
            init_pages(start as int, size as int, PAGE_SIZE as int) <= BITMAP_CAP,
        ensures
            final(self).wf(),
            final(self)@ == (PageState {
                free: old(self)@.free.union(
                    index_range(0, init_pages(start as int, size as int, PAGE_SIZE as int)),
                ),
                base: align_up_spec(start as int, PAGE_SIZE as int),
                total_pages: init_pages(start as int, size as int, PAGE_SIZE as int),
                used_pages: old(self)@.used_pages,
            }),
    {
        proof {
            is_pow2_equiv(PAGE_SIZE as int);
            lemma_pow2_pos(choose|k: nat| pow(2, k) == PAGE_SIZE as int);
        }
        let end = align_down(start + size, PAGE_SIZE);
        let start = align_up(start, PAGE_SIZE);
        self.base = start;
        self.total_pages = (end - start) / PAGE_SIZE;
        bitmap_insert(&mut self.inner2, 0, self.total_pages);
    }

    /// Allocates `num_pages` contiguous pages and gives the address of the
    /// first. `align_pow2` must be a power-of-two multiple of the page size;
    /// a single page is the lowest free one, a run of several is the lowest
    /// free run aligned to `align_pow2 / PAGE_SIZE` pages as the bitmap
    /// reads that number.
    pub fn alloc_pages(&mut self, num_pages: usize, align_pow2: usize) -> (r: AllocResult<usize>)
        requires
            old(self).wf(),
            PAGE_SIZE > 0,
            request_valid(PAGE_SIZE as int, num_pages as int, align_pow2 as int) && num_pages > 1
                ==> align_pow2 / PAGE_SIZE < usize::BITS,
            request_valid(PAGE_SIZE as int, num_pages as int, align_pow2 as int) && request_served(
                old(self)@,
                PAGE_SIZE as int,
                num_pages as int,
                align_pow2 as int,
            ) ==> {
                &&& old(self)@.used_pages + num_pages <= usize::MAX
                &&& page_addr(
                    old(self)@,
                    PAGE_SIZE as int,
                    request_index(old(self)@, PAGE_SIZE as int, num_pages as int, align_pow2 as int),
                ) <= usize::MAX
            },
        ensures
            final(self).wf(),
            !request_valid(PAGE_SIZE as int, num_pages as int, align_pow2 as int) ==> r == Err::<
                usize,
                AllocError,
            >(AllocError::InvalidParam) && final(self)@ == old(self)@,
            request_valid(PAGE_SIZE as int, num_pages as int, align_pow2 as int) && !request_served(
                old(self)@,
                PAGE_SIZE as int,
                num_pages as int,
                align_pow2 as int,
            ) ==> r == Err::<usize, AllocError>(AllocError::NoMemory) && final(self)@ == old(self)@,
            request_valid(PAGE_SIZE as int, num_pages as int, align_pow2 as int) && request_served(
                old(self)@,
                PAGE_SIZE as int,
                num_pages as int,
                align_pow2 as int,
            ) ==> {
                &&& r matches Ok(addr) && addr == page_addr(
                    old(self)@,
                    PAGE_SIZE as int,
                    request_index(old(self)@, PAGE_SIZE as int, num_pages as int, align_pow2 as int),
                )
                &&& final(self)@ == after_alloc(
                    old(self)@,
                    PAGE_SIZE as int,
                    num_pages as int,
                    align_pow2 as int,
                )
            },
    {
        if align_pow2 % PAGE_SIZE != 0 {
            return Err(AllocError::InvalidParam);
        }
        let align_pow2 = align_pow2 / PAGE_SIZE;
        if !usize_is_power_of_two(align_pow2) {
            return Err(AllocError::InvalidParam);
        }
        let ghost free = bitmap_free(self.inner2);
        let found = if num_pages == 1 {
            let found = bitmap_alloc(&mut self.inner2);
            proof {
                if let Some(i) = found {
                    lemma_lowest_unique(free, i as int);
                    assert(index_range(i as int, i + 1) =~= set![i as int]);
                    assert(free.remove(i as int) =~= free.difference(index_range(i as int, i + 1)));
                }
            }
            found
        } else if num_pages > 1 {
            let found = bitmap_alloc_contiguous(&mut self.inner2, num_pages, align_pow2);
            proof {
                if let Some(b) = found {
                    lemma_lowest_run_unique(free, num_pages as int, align_pow2 as nat, b as int);
                    assert(free.contains(b as int));
                }
            }
            found
        } else {
            return Err(AllocError::InvalidParam);
        };
        match found {
            None => Err(AllocError::NoMemory),
            Some(idx) => {
                let addr = idx * PAGE_SIZE + self.base;
                self.used_pages = self.used_pages + num_pages;
                Ok(addr)
            },
        }
    }

    /// Frees the page at `pos`. The count of used pages goes down by
    /// `num_pages`, while only the page at `pos` returns to the bitmap.
    pub fn dealloc_pages(&mut self, pos: usize, num_pages: usize)
        requires
            old(self).wf(),
            PAGE_SIZE > 0,
            old(self)@.used_pages >= num_pages,
            pos >= old(self)@.base,
            page_index(old(self)@, PAGE_SIZE as int, pos as int) < BITMAP_CAP,
            !old(self)@.free.contains(page_index(old(self)@, PAGE_SIZE as int, pos as int)),
        ensures
            final(self).wf(),
            final(self)@ == after_dealloc(old(self)@, PAGE_SIZE as int, pos as int, num_pages as int),
    {
        self.used_pages = self.used_pages - num_pages;
        let key = (pos - self.base) / PAGE_SIZE;
        bitmap_dealloc(&mut self.inner2, key);
        proof {
            lemma_index_below((pos - self.base) as int, PAGE_SIZE as int);
        }
    }
}
/// The number of whole pages of `page_size` bytes in `start..start + size`
/// once both ends are aligned.
pub open spec fn init_pages(start: int, size: int, page_size: int) -> int {
    (align_down_spec(start + size, page_size) - align_up_spec(start, page_size)) / page_size
}

/// The state after `dealloc_pages(pos, num_pages)`.
pub open spec fn after_dealloc(s: PageState, page_size: int, pos: int, num_pages: int) -> PageState {
    PageState {
        free: s.free.insert(page_index(s, page_size, pos)),
        used_pages: s.used_pages - num_pages,
        ..s
    }
}

/// A page below `span / page` pages ends within `span` bytes.
proof fn lemma_page_in_span(span: int, page: int, i: int)
    requires
        span >= 0,
        page > 0,
        0 <= i < span / page,
    ensures
        i * page + page <= span,
{
    assert(i * page + page <= (span / page) * page) by (nonlinear_arith)
        requires
            page > 0,
            i + 1 <= span / page,
    ;
    assert((span / page) * page <= span) by (nonlinear_arith)
        requires
            page > 0,
            span >= 0,
    ;
}

/// The page holding offset `off` starts at or below it.
proof fn lemma_index_below(off: int, page: int)
    requires
        off >= 0,
        page > 0,
    ensures
        (off / page) * page <= off,
{
    assert((off / page) * page <= off) by (nonlinear_arith)
        requires
            page > 0,
            off >= 0,
    ;
}

/// Whether every free index of `s` lies within the bitmap.
pub open spec fn state_in_range(s: PageState) -> bool {
    forall|i: int| #[trigger] s.free.contains(i) ==> 0 <= i < BITMAP_CAP
}

/// A set of non-negative integers that holds `x` has a least element.
proof fn lemma_lowest_free(free: Set<int>, x: int)
    requires
        free.contains(x),
        forall|i: int| #[trigger] free.contains(i) ==> i >= 0,
    ensures
        free.contains(lowest_free(free)),
        forall|j: int| #[trigger] free.contains(j) ==> lowest_free(free) <= j,
    decreases x,
{
    if exists|y: int| #[trigger] free.contains(y) && y < x {
        let y = choose|y: int| #[trigger] free.contains(y) && y < x;
        lemma_lowest_free(free, y);
    } else {
        assert(free.contains(x) && forall|j: int| #[trigger] free.contains(j) ==> x <= j);
    }
}

/// Where an aligned run fits at `x`, there is a lowest base where one fits.
proof fn lemma_lowest_run(free: Set<int>, size: int, align_log2: nat, x: int)
    requires
        run_fits(free, x, size, align_log2),
    ensures
        run_fits(free, lowest_run(free, size, align_log2), size, align_log2),
        forall|o: int| #[trigger]
            run_fits(free, o, size, align_log2) ==> lowest_run(free, size, align_log2) <= o,
    decreases x,
{
    if exists|y: int| #[trigger] run_fits(free, y, size, align_log2) && y < x {
        let y = choose|y: int| #[trigger] run_fits(free, y, size, align_log2) && y < x;
        lemma_lowest_run(free, size, align_log2, y);
    } else {
        assert(run_fits(free, x, size, align_log2) && forall|o: int| #[trigger]
            run_fits(free, o, size, align_log2) ==> x <= o);
    }
}

/// A served request gets pages that were all free, inside the bitmap, and
/// none of them is free afterwards.
pub proof fn lemma_alloc_takes_free_pages(s: PageState, page_size: int, num_pages: int, align_pow2: int)
    requires
        page_size > 0,
        state_in_range(s),
        request_valid(page_size, num_pages, align_pow2),
        request_served(s, page_size, num_pages, align_pow2),
    ensures
        request_pages(s, page_size, num_pages, align_pow2).subset_of(s.free),
        0 <= request_index(s, page_size, num_pages, align_pow2),
        request_index(s, page_size, num_pages, align_pow2) + num_pages <= BITMAP_CAP,
        after_alloc(s, page_size, num_pages, align_pow2).free.disjoint(
            request_pages(s, page_size, num_pages, align_pow2),
        ),
        after_alloc(s, page_size, num_pages, align_pow2).used_pages == s.used_pages + num_pages,
{
    let first = request_index(s, page_size, num_pages, align_pow2);
    if num_pages == 1 {
        lemma_lowest_free(s.free, s.free.choose());
        assert(request_pages(s, page_size, num_pages, align_pow2) =~= set![first]);
    } else {
        let a = (align_pow2 / page_size) as nat;
        let x = choose|b: int| run_fits(s.free, b, num_pages, a);
        lemma_lowest_run(s.free, num_pages, a, x);
    }
}

/// Two requests served one after the other never share a page.
pub proof fn lemma_allocations_disjoint(
    s: PageState,
    page_size: int,
    num1: int,
    align1: int,
    num2: int,
    align2: int,
)
    requires
        page_size > 0,
        state_in_range(s),
        request_valid(page_size, num1, align1),
        request_served(s, page_size, num1, align1),
        request_valid(page_size, num2, align2),
        request_served(after_alloc(s, page_size, num1, align1), page_size, num2, align2),
    ensures
        request_pages(s, page_size, num1, align1).disjoint(
            request_pages(after_alloc(s, page_size, num1, align1), page_size, num2, align2),
        ),
{
    let s1 = after_alloc(s, page_size, num1, align1);
    lemma_alloc_takes_free_pages(s, page_size, num1, align1);
    lemma_alloc_takes_free_pages(s1, page_size, num2, align2);
}

/// Freeing the page that a single-page request got restores the allocator
/// to its state before the request.
#[verifier::spinoff_prover]
pub proof fn lemma_alloc_dealloc_round_trip(s: PageState, page_size: int, align_pow2: int)
    requires
        page_size > 0,
        state_in_range(s),
        request_valid(page_size, 1, align_pow2),
        request_served(s, page_size, 1, align_pow2),
    ensures
        after_dealloc(
            after_alloc(s, page_size, 1, align_pow2),
            page_size,
            page_addr(s, page_size, request_index(s, page_size, 1, align_pow2)),
            1,
        ) == s,
{
    let i = request_index(s, page_size, 1, align_pow2);
    let s1 = after_alloc(s, page_size, 1, align_pow2);
    lemma_alloc_takes_free_pages(s, page_size, 1, align_pow2);
    assert((i * page_size) / page_size == i) by (nonlinear_arith)
        requires
            page_size > 0,
    ;
    assert(page_index(s1, page_size, page_addr(s, page_size, i)) == i);
    assert(request_pages(s, page_size, 1, align_pow2) =~= set![i]);
    assert(s1.free.insert(i) =~= s.free);
}

/// Whether the page counter balances the free set: the used pages and the
/// free pages together make up all pages.
pub open spec fn pages_balanced(s: PageState) -> bool {
    s.free.finite() && s.free.len() + s.used_pages == s.total_pages
}

/// `index_range(lo, hi)` holds `hi - lo` indices.
proof fn lemma_index_range_len(lo: int, hi: int)
    requires
        lo <= hi,
    ensures
        index_range(lo, hi).finite(),
        index_range(lo, hi).len() == hi - lo,
{
    lemma_int_range(lo, hi);
    assert(index_range(lo, hi) =~= set_int_range(lo, hi));
}

/// A new allocator after `init` is balanced: all its pages are free.
pub proof fn lemma_init_balanced(base: int, total_pages: int)
    requires
        total_pages >= 0,
    ensures
        pages_balanced(
            PageState {
                free: Set::<int>::empty().union(index_range(0, total_pages)),
                base,
                total_pages,
                used_pages: 0,
            },
        ),
{
    lemma_index_range_len(0, total_pages);
    assert(Set::<int>::empty().union(index_range(0, total_pages)) =~= index_range(0, total_pages));
}

/// A served request keeps the balance: the pages it takes leave the free
/// set and join the used count.
pub proof fn lemma_alloc_keeps_balance(s: PageState, page_size: int, num_pages: int, align_pow2: int)
    requires
        page_size > 0,
        state_in_range(s),
        pages_balanced(s),
        request_valid(page_size, num_pages, align_pow2),
        request_served(s, page_size, num_pages, align_pow2),
    ensures
        pages_balanced(after_alloc(s, page_size, num_pages, align_pow2)),
{
    lemma_alloc_takes_free_pages(s, page_size, num_pages, align_pow2);
    let first = request_index(s, page_size, num_pages, align_pow2);
    let pages = request_pages(s, page_size, num_pages, align_pow2);
    lemma_index_range_len(first, first + num_pages);
    lemma_set_difference_len(s.free, pages);
    assert(s.free.intersect(pages) =~= pages);
}

/// Freeing a single page that is not free keeps the balance.
pub proof fn lemma_single_free_keeps_balance(s: PageState, page_size: int, pos: int)
    requires
        pages_balanced(s),
        s.used_pages >= 1,
        !s.free.contains(page_index(s, page_size, pos)),
    ensures
        pages_balanced(after_dealloc(s, page_size, pos, 1)),
{
}

/// Where the allocator is balanced, the pages that `available_pages`
/// reports are exactly the free pages.
pub proof fn lemma_available_counts_free(s: PageState)
    requires
        pages_balanced(s),
    ensures
        s.used_pages <= s.total_pages,
        s.total_pages - s.used_pages == s.free.len(),
{
}

/// `align_down_spec(pos, align)` is the greatest multiple of `align` that
/// is at most `pos`, and `align_up_spec` the least that is at least `pos`.
pub proof fn lemma_align_bounds(pos: int, align: int)
    requires
        pos >= 0,
        align > 0,
    ensures
        align_down_spec(pos, align) % align == 0,
        align_down_spec(pos, align) <= pos < align_down_spec(pos, align) + align,
        align_up_spec(pos, align) % align == 0,
        align_up_spec(pos, align) - align < pos <= align_up_spec(pos, align),
{
    assert((pos - pos % align) % align == 0 && 0 <= pos % align < align) by (nonlinear_arith)
        requires
            pos >= 0,
            align > 0,
    ;
    let q = pos + align - 1;
    assert((q - q % align) % align == 0 && 0 <= q % align < align) by (nonlinear_arith)
        requires
            q >= 0,
            align > 0,
    ;
}

/// The address that a served request gets lies a whole number of pages
/// above page 0, inside the pages of the bitmap.
pub proof fn lemma_alloc_address(s: PageState, page_size: int, num_pages: int, align_pow2: int)
    requires
        page_size > 0,
        state_in_range(s),
        request_valid(page_size, num_pages, align_pow2),
        request_served(s, page_size, num_pages, align_pow2),
    ensures
        ({
            let addr = page_addr(s, page_size, request_index(s, page_size, num_pages, align_pow2));
            &&& s.base <= addr
            &&& (addr - s.base) % page_size == 0
            &&& addr + num_pages * page_size <= s.base + BITMAP_CAP * page_size
        }),
{
    let i = request_index(s, page_size, num_pages, align_pow2);
    lemma_alloc_takes_free_pages(s, page_size, num_pages, align_pow2);
    assert(0 <= i * page_size && (i * page_size) % page_size == 0) by (nonlinear_arith)
        requires
            i >= 0,
            page_size > 0,
    ;
    assert(i * page_size + num_pages * page_size <= BITMAP_CAP * page_size) by (nonlinear_arith)
        requires
            i + num_pages <= BITMAP_CAP,
            page_size > 0,
    ;
}

/// Freeing, with the same count, the address that a served request got
/// gives back the count of used pages before the request and makes the
/// request's first page free again.
#[verifier::spinoff_prover]
pub proof fn lemma_alloc_dealloc_counts(s: PageState, page_size: int, num_pages: int, align_pow2: int)
    requires
        page_size > 0,
        state_in_range(s),
        request_valid(page_size, num_pages, align_pow2),
        request_served(s, page_size, num_pages, align_pow2),
    ensures
        ({
            let i = request_index(s, page_size, num_pages, align_pow2);
            let after = after_dealloc(
                after_alloc(s, page_size, num_pages, align_pow2),
                page_size,
                page_addr(s, page_size, i),
                num_pages,
            );
            &&& after.used_pages == s.used_pages
            &&& after.free.contains(i)
            &&& after.base == s.base
            &&& after.total_pages == s.total_pages
        }),
{
    let i = request_index(s, page_size, num_pages, align_pow2);
    lemma_alloc_takes_free_pages(s, page_size, num_pages, align_pow2);
    assert((i * page_size) / page_size == i) by (nonlinear_arith)
        requires
            page_size > 0,
    ;
    let s1 = after_alloc(s, page_size, num_pages, align_pow2);
    assert(page_index(s1, page_size, page_addr(s, page_size, i)) == i);
}

} // verus!
