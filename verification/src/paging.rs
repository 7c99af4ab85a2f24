//! Page table entries, page tables, and ranges of pages.

use vstd::prelude::*;
use crate::memory_types::{
    canonical, div_ceil, is_physical_addr, table_index, Frame, FrameAllocator, Page, VirtualAddress,
};

verus! {

/// The bits of a page table entry that hold the mapped address.
pub const ADDRESS_MASK: u64 = 0x000F_FFFF_FFFF_F000;
/// The number of entries in a [`PageTable`].
pub const ENTRIES_PER_PAGE_TABLE: usize = 512;
/// The size of a page table entry, in bytes.
pub const PAGE_TABLE_ENTRY_SIZE: usize = 8;
/// The size of a huge page in a level 2 page table.
pub const L2_HUGE_PAGE_SIZE: usize = 512 * 512 * 8;
/// How many pages fit within a huge page in a level 2 page table.
pub const PAGES_PER_L2_HUGE_PAGE: usize = 512;
/// The size of a huge page in a level 3 page table.
pub const L3_HUGE_PAGE_SIZE: u64 = 512 * 512 * 512 * 8;
/// How many pages fit within a huge page in a level 3 page table.
pub const PAGES_PER_L3_HUGE_PAGE: usize = 512 * 512;

pub const PRESENT_BIT: u64 = 1;
pub const WRITABLE_BIT: u64 = 2;
pub const USER_ACCESSIBLE_BIT: u64 = 4;
pub const WRITE_THROUGH_BIT: u64 = 8;
pub const NO_CACHE_BIT: u64 = 16;
pub const ACCESSED_BIT: u64 = 32;
pub const DIRTY_BIT: u64 = 64;
pub const HUGE_PAGE_BIT: u64 = 128;
pub const GLOBAL_BIT: u64 = 256;
pub const NO_EXECUTE_BIT: u64 = 0x8000_0000_0000_0000;

/// The permission and status bits of a [`PageTableEntry`].
#[derive(Clone, Copy, Debug, PartialEq, Eq, Structural)]
pub struct PageTableFlags(u64);

impl View for PageTableFlags {
    type V = u64;

    closed spec fn view(&self) -> u64 {
        self.0
    }
}

impl PageTableFlags {
    /// The flag set with exactly the given bits.
    pub fn from_bits(bits: u64) -> (r: Self)
        ensures
            r@ == bits,
    {
        PageTableFlags(bits)
    }

    pub fn none() -> (r: Self)
        ensures
            r@ == 0,
    {
        PageTableFlags(0)
    }

    /// Every named flag at once.
    pub fn all() -> (r: Self)
        ensures
            r@ == PRESENT_BIT | WRITABLE_BIT | USER_ACCESSIBLE_BIT | WRITE_THROUGH_BIT | NO_CACHE_BIT
                | ACCESSED_BIT | DIRTY_BIT | HUGE_PAGE_BIT | GLOBAL_BIT | NO_EXECUTE_BIT,
    {
        PageTableFlags(
            PRESENT_BIT | WRITABLE_BIT | USER_ACCESSIBLE_BIT | WRITE_THROUGH_BIT | NO_CACHE_BIT
                | ACCESSED_BIT | DIRTY_BIT | HUGE_PAGE_BIT | GLOBAL_BIT | NO_EXECUTE_BIT,
        )
    }

    pub fn present() -> (r: Self)
        ensures
            r@ == PRESENT_BIT,
    {
        PageTableFlags(PRESENT_BIT)
    }

    pub fn writable() -> (r: Self)
        ensures
            r@ == WRITABLE_BIT,
    {
        PageTableFlags(WRITABLE_BIT)
    }

    pub fn user_accessible() -> (r: Self)
        ensures
            r@ == USER_ACCESSIBLE_BIT,
    {
        PageTableFlags(USER_ACCESSIBLE_BIT)
    }

    pub fn write_through() -> (r: Self)
        ensures
            r@ == WRITE_THROUGH_BIT,
    {
        PageTableFlags(WRITE_THROUGH_BIT)
    }

    pub fn no_cache() -> (r: Self)
        ensures
            r@ == NO_CACHE_BIT,
    {
        PageTableFlags(NO_CACHE_BIT)
    }

    pub fn accessed() -> (r: Self)
        ensures
            r@ == ACCESSED_BIT,
    {
        PageTableFlags(ACCESSED_BIT)
    }

    pub fn dirty() -> (r: Self)
        ensures
            r@ == DIRTY_BIT,
    {
        PageTableFlags(DIRTY_BIT)
    }

    pub fn huge_page() -> (r: Self)
        ensures
            r@ == HUGE_PAGE_BIT,
    {
        PageTableFlags(HUGE_PAGE_BIT)
    }

    pub fn global() -> (r: Self)
        ensures
            r@ == GLOBAL_BIT,
    {
        PageTableFlags(GLOBAL_BIT)
    }

    pub fn no_execute() -> (r: Self)
        ensures
            r@ == NO_EXECUTE_BIT,
    {
        PageTableFlags(NO_EXECUTE_BIT)
    }

    pub fn bits(&self) -> (r: u64)
        ensures
            r == self@,
    {
        self.0
    }

    /// Whether every bit of `other` is set in `self`.
    pub fn get(&self, other: Self) -> (r: bool)
        ensures
            r == (self@ & other@ == other@),
    {
        self.0 & other.0 == other.0
    }

    /// The bits set in either (`|`).
    pub fn union(self, rhs: Self) -> (r: Self)
        ensures
            r@ == self@ | rhs@,
    {
        PageTableFlags(self.0 | rhs.0)
    }

    /// The bits set in both (`&`).
    pub fn intersection(self, rhs: Self) -> (r: Self)
        ensures
            r@ == self@ & rhs@,
    {
        PageTableFlags(self.0 & rhs.0)
    }

    /// The bits set in exactly one (`^`).
    pub fn symmetric_difference(self, rhs: Self) -> (r: Self)
        ensures
            r@ == self@ ^ rhs@,
    {
        PageTableFlags(self.0 ^ rhs.0)
    }

    /// Every bit flipped (`!`).
    pub fn complement(self) -> (r: Self)
        ensures
            r@ == !self@,
    {
        PageTableFlags(!self.0)
    }
}

/// The address bits of an entry value, sign-extended as a virtual address.
pub open spec fn entry_addr(value: u64) -> u64 {
    canonical(value & ADDRESS_MASK)
}

pub open spec fn entry_is_present(value: u64) -> bool {
    value & PRESENT_BIT == PRESENT_BIT
}

pub open spec fn entry_is_huge(value: u64) -> bool {
    value & HUGE_PAGE_BIT == HUGE_PAGE_BIT
}

/// What [`PageTableEntry::frame`] gives for an entry value.
pub enum EntryFrameSpec {
    NotPresent,
    HugePage,
    Mapped(u64),
}

/// An entry within a [`PageTable`].
#[derive(Clone, Copy, Debug, PartialEq, Eq, Structural)]
pub struct PageTableEntry {
    value: u64,
}

impl View for PageTableEntry {
    type V = u64;

    closed spec fn view(&self) -> u64 {
        self.value
    }
}

impl PageTableEntry {
    /// An unused entry.
    pub fn new() -> (r: Self)
        ensures
            r@ == 0,
    {
        PageTableEntry { value: 0 }
    }

    pub fn is_unused(&self) -> (r: bool)
        ensures
            r == (self@ == 0),
    {
        self.value == 0
    }

    pub fn is_present(&self) -> (r: bool)
        ensures
            r == entry_is_present(self@),
    {
        let v = self.value;
        assert((v & !ADDRESS_MASK) & PRESENT_BIT == v & PRESENT_BIT) by (bit_vector);
        self.flags().get(PageTableFlags::present())
    }

    pub fn is_writable(&self) -> (r: bool)
        ensures
            r == (self@ & WRITABLE_BIT == WRITABLE_BIT),
    {
        let v = self.value;
        assert((v & !ADDRESS_MASK) & WRITABLE_BIT == v & WRITABLE_BIT) by (bit_vector);
        self.flags().get(PageTableFlags::writable())
    }

    pub fn is_huge_page(&self) -> (r: bool)
        ensures
            r == entry_is_huge(self@),
    {
        let v = self.value;
        assert((v & !ADDRESS_MASK) & HUGE_PAGE_BIT == v & HUGE_PAGE_BIT) by (bit_vector);
        self.flags().get(PageTableFlags::huge_page())
    }

    /// The address mapped by this entry (might be zero).
    pub fn addr(&self) -> (r: VirtualAddress)
        ensures
            r@ == entry_addr(self@),
    {
        VirtualAddress::new(self.value & ADDRESS_MASK)
    }

    /// The frame mapped by this entry.
    pub fn frame(&self) -> (r: Result<Frame, EntryFrameError>)
        requires
            entry_is_present(self@) && !entry_is_huge(self@) ==> is_physical_addr(entry_addr(self@)),
        ensures
            !entry_is_present(self@) ==> r == Err::<Frame, EntryFrameError>(EntryFrameError::NotPresent),
            entry_is_present(self@) && entry_is_huge(self@) ==> r == Err::<Frame, EntryFrameError>(
                EntryFrameError::HugePage,
            ),
            entry_is_present(self@) && !entry_is_huge(self@) ==> (r matches Ok(f) && f@
                == entry_addr(self@) / 4096),
    {
        if !self.is_present() {
            Err(EntryFrameError::NotPresent)
        } else if self.is_huge_page() {
            Err(EntryFrameError::HugePage)
        } else {
            Ok(Frame::containing_addr(self.addr()))
        }
    }

    /// The flag bits of this entry (everything outside the address bits).
    pub fn flags(&self) -> (r: PageTableFlags)
        ensures
            r@ == self@ & !ADDRESS_MASK,
    {
        PageTableFlags::from_bits(self.value & !ADDRESS_MASK)
    }

    /// Make this entry unused.
    pub fn set_unused(&mut self)
        ensures
            final(self)@ == 0,
    {
        self.value = 0;
    }

    /// Point this entry at the page-aligned physical address `addr`, with `flags`.
    pub fn set_addr(&mut self, addr: VirtualAddress, flags: PageTableFlags)
        requires
            addr@ % 4096 == 0,
            is_physical_addr(addr@),
        ensures
            final(self)@ == addr@ | flags@,
    {
        self.value = addr.to_raw() | flags.bits();
    }

    /// Point this entry at `frame`, with `flags` (which must not ask for a huge page).
    pub fn set_frame(&mut self, frame: Frame, flags: PageTableFlags)
        requires
            flags@ & HUGE_PAGE_BIT != HUGE_PAGE_BIT,
            is_physical_addr((frame@ * 4096) as u64),
            frame@ * 4096 <= u64::MAX,
        ensures
            final(self)@ == (frame@ * 4096) as u64 | flags@,
            flag_bits_only(flags@) ==> entry_addr(final(self)@) == frame@ * 4096 && final(self)@ & !ADDRESS_MASK
                == flags@ && entry_frame(final(self)@) == frame@,
            flag_bits_only(flags@) ==> (entry_is_present(final(self)@) <==> flags@ & PRESENT_BIT == PRESENT_BIT)
                && !entry_is_huge(final(self)@),
    {
        let huge = flags.intersection(PageTableFlags::huge_page());
        proof {
            assert(huge@ == flags@ & HUGE_PAGE_BIT);
        }
        let a = frame.base_addr();
        proof {
            assert(a@ % 4096 == 0) by (nonlinear_arith)
                requires
                    a@ == frame@ * 4096;
            if flag_bits_only(flags@) {
                lemma_frame_base(frame@);
                lemma_entry_addr_with_flags(a@, flags@);
            }
        }
        self.set_addr(a, flags)
    }

    /// Keep this entry's address, and replace its flags with `flags`.
    pub fn set_flags(&mut self, flags: PageTableFlags)
        ensures
            final(self)@ == entry_addr(old(self)@) | flags@,
    {
        self.value = self.addr().to_raw() | flags.bits();
    }
}

/// Why an entry does not give a frame.
#[derive(Clone, Copy, Debug, PartialEq, Eq, Structural)]
pub enum EntryFrameError {
    NotPresent,
    HugePage,
}

impl EntryFrameError {
    /// The message that describes this error.
    pub fn message(&self) -> (r: &'static str)
        ensures
            *self == EntryFrameError::NotPresent ==> r@ == "entry does not have the `PRESENT` flag set"@,
            *self == EntryFrameError::HugePage ==> r@ == "entry has the `HUGE_PAGE` flag set"@,
    {
        match self {
            EntryFrameError::NotPresent => "entry does not have the `PRESENT` flag set",
            EntryFrameError::HugePage => "entry has the `HUGE_PAGE` flag set",
        }
    }
}

/// A table of 512 page mappings.
#[derive(Clone, Debug)]
pub struct PageTable {
    entries: Vec<PageTableEntry>,
}

impl View for PageTable {
    type V = Seq<u64>;

    closed spec fn view(&self) -> Seq<u64> {
        self.entries@.map_values(|e: PageTableEntry| e@)
    }
}

impl PageTable {
    /// The table's shape: exactly 512 entries.
    pub closed spec fn wf(&self) -> bool {
        self.entries@.len() == 512
    }

    pub proof fn lemma_wf_len(&self)
        requires
            self.wf(),
        ensures
            self@.len() == 512,
    {
    }

    /// A table whose entries are all unused.
    pub fn new() -> (r: Self)
        ensures
            r.wf(),
            r@ == Seq::new(512, |i: int| 0u64),
    {
        let mut entries: Vec<PageTableEntry> = Vec::new();
        let mut i: usize = 0;
        while i < 512
            invariant
                i <= 512,
                entries@.len() == i,
                forall|j: int| 0 <= j < i ==> entries@[j]@ == 0,
            decreases 512 - i,
        {
            entries.push(PageTableEntry::new());
            i = i + 1;
        }
        let r = PageTable { entries };
        assert(r@ =~= Seq::new(512, |i: int| 0u64));
        r
    }

    /// Make every entry unused.
    pub fn clear(&mut self)
        requires
            old(self).wf(),
        ensures
            final(self).wf(),
            final(self)@ == Seq::new(512, |i: int| 0u64),
    {
        let mut i: usize = 0;
        while i < 512
            invariant
                i <= 512,
                self.entries@.len() == 512,
                forall|j: int| 0 <= j < i ==> self.entries@[j]@ == 0,
            decreases 512 - i,
        {
            self.entries.set(i, PageTableEntry::new());
            i = i + 1;
        }
        assert(self@ =~= Seq::new(512, |i: int| 0u64));
    }

    /// The entry at `index`.
    pub fn entry(&self, index: usize) -> (r: PageTableEntry)
        requires
            self.wf(),
            index < 512,
        ensures
            r@ == self@[index as int],
    {
        self.entries[index]
    }

    /// Replace the entry at `index`.
    pub fn set_entry(&mut self, index: usize, entry: PageTableEntry)
        requires
            old(self).wf(),
            index < 512,
        ensures
            final(self).wf(),
            final(self)@ == old(self)@.update(index as int, entry@),
    {
        self.entries.set(index, entry);
        assert(self@ =~= old(self)@.update(index as int, entry@));
    }
}

/// An exclusive range of pages: from `start` up to, not including, `end`.
#[derive(Clone, Copy, Debug, PartialEq, Eq, Structural)]
pub struct PageRange {
    pub start: Page,
    pub end: Page,
}

impl PageRange {
    pub fn new(start: Page, end: Page) -> (r: Self)
        ensures
            r.start == start,
            r.end == end,
    {
        PageRange { start, end }
    }

    /// The `len` pages from `start`.
    pub fn from_start_len(start: Page, len: usize) -> (r: Self)
        requires
            start@ + len <= u64::MAX,
        ensures
            r.start == start,
            r.end@ == start@ + len,
    {
        PageRange { start, end: start.plus(len as u64) }
    }

    /// The pages that hold `size` bytes and end just before `end`.
    pub fn from_end_size(end: Page, size: usize) -> (r: Self)
        requires
            end@ >= div_ceil(size as int, 4096),
        ensures
            r.end == end,
            r.start@ == end@ - div_ceil(size as int, 4096),
    {
        let len = pages_for_size(size);
        PageRange { start: end.minus(len as u64), end }
    }

    /// The pages that hold `size` bytes from the page containing `base`.
    pub fn from_base_size(base: VirtualAddress, size: usize) -> (r: Self)
        requires
            base@ / 4096 + div_ceil(size as int, 4096) <= u64::MAX,
        ensures
            r.start@ == base@ / 4096,
            r.end@ == base@ / 4096 + div_ceil(size as int, 4096),
    {
        let start = Page::containing_addr(base);
        let len = pages_for_size(size);
        PageRange { start, end: start.plus(len as u64) }
    }

    /// The `len` pages from the page containing `base`.
    pub fn from_base_len(base: VirtualAddress, len: usize) -> (r: Self)
        requires
            base@ / 4096 + len <= u64::MAX,
        ensures
            r.start@ == base@ / 4096,
            r.end@ == base@ / 4096 + len,
    {
        PageRange { start: Page::containing_addr(base), end: Page::containing_addr(base).plus(len as u64) }
    }

    /// The number of pages in this range.
    pub fn len(&self) -> (r: u64)
        requires
            self.start@ <= self.end@,
        ensures
            r == self.end@ - self.start@,
    {
        self.end.number() - self.start.number()
    }

    /// The first page of the range, which the range then no longer holds.
    pub fn next(&mut self) -> (r: Option<Page>)
        ensures
            next_step(*old(self), r, *final(self)),
    {
        if self.start.number() < self.end.number() {
            let page = self.start;
            self.start = self.start.plus(1);
            Some(page)
        } else {
            None
        }
    }
}

/// What one call of [`PageRange::next`] does: from a range that holds a page, it gives the
/// first one and moves the start past it; from an empty range, it gives nothing and changes
/// nothing.
pub open spec fn next_step(before: PageRange, r: Option<Page>, after: PageRange) -> bool {
    &&& before.start@ < before.end@ ==> r == Some(before.start) && after.start@ == before.start@ + 1
        && after.end == before.end
    &&& before.start@ >= before.end@ ==> r is None && after == before
}

/// Iterating a range with [`PageRange::next`] gives exactly its `len` pages, from its start
/// upward and never its end, and nothing after them.
pub proof fn law_page_range_iteration(ranges: Seq<PageRange>, pages: Seq<Option<Page>>)
    requires
        ranges.len() == pages.len() + 1,
        ranges[0].start@ <= ranges[0].end@,
        forall|i: int| 0 <= i < pages.len() ==> next_step(ranges[i], #[trigger] pages[i], ranges[i + 1]),
    ensures
        forall|i: int|
            0 <= i < pages.len() && i < ranges[0].end@ - ranges[0].start@ ==> ((#[trigger] pages[i]) matches Some(
                p,
            ) && p@ == ranges[0].start@ + i && p@ < ranges[0].end@),
        forall|i: int| 0 <= i < pages.len() && i >= ranges[0].end@ - ranges[0].start@ ==> (
        #[trigger] pages[i]) is None,
{
    if pages.len() > 0 {
        let n = pages.len() - 1;
        assert forall|i: int| 0 <= i <= n implies (#[trigger] ranges[i]).end == ranges[0].end && (
            ranges[i].start@ == if i <= ranges[0].end@ - ranges[0].start@ {
                ranges[0].start@ + i
            } else {
                ranges[0].end@ as int
            }) by {
            lemma_range_steps(ranges, pages, i);
        }
        assert forall|i: int| 0 <= i < pages.len() && i < ranges[0].end@ - ranges[0].start@ implies ((
        #[trigger] pages[i]) matches Some(p) && p@ == ranges[0].start@ + i && p@ < ranges[0].end@) by {
            lemma_range_steps(ranges, pages, i);
            assert(next_step(ranges[i], pages[i], ranges[i + 1]));
        }
        assert forall|i: int| 0 <= i < pages.len() && i >= ranges[0].end@ - ranges[0].start@ implies (
        #[trigger] pages[i]) is None by {
            lemma_range_steps(ranges, pages, i);
            assert(next_step(ranges[i], pages[i], ranges[i + 1]));
        }
    }
}

/// After `i` calls of [`PageRange::next`], the range starts `i` pages on, or at its end.
proof fn lemma_range_steps(ranges: Seq<PageRange>, pages: Seq<Option<Page>>, i: int)
    requires
        ranges.len() == pages.len() + 1,
        ranges[0].start@ <= ranges[0].end@,
        forall|j: int| 0 <= j < pages.len() ==> next_step(ranges[j], #[trigger] pages[j], ranges[j + 1]),
        0 <= i < ranges.len(),
    ensures
        ranges[i].end == ranges[0].end,
        ranges[i].start@ == if i <= ranges[0].end@ - ranges[0].start@ {
            ranges[0].start@ + i
        } else {
            ranges[0].end@ as int
        },
    decreases i,
{
    if i > 0 {
        lemma_range_steps(ranges, pages, i - 1);
        assert(next_step(ranges[i - 1], pages[i - 1], ranges[i]));
    }
}

/// The number of pages needed to hold `size` bytes.
pub fn pages_for_size(size: usize) -> (r: usize)
    ensures
        r == div_ceil(size as int, 4096),
{
    let q = size / 4096;
    if size % 4096 == 0 {
        q
    } else {
        q + 1
    }
}

/// A page whose mapping changed, to be flushed from the TLB or ignored.
#[derive(Debug)]
pub struct FlushMapping(Page);

impl FlushMapping {
    pub fn new(page: Page) -> (r: Self)
        ensures
            r.page_spec() == page,
    {
        FlushMapping(page)
    }

    pub closed spec fn page_spec(&self) -> Page {
        self.0
    }

    /// Don't flush the TLB.
    pub fn ignore(self) {
    }

    /// The page to be flushed.
    pub fn page(&self) -> (r: Page)
        ensures
            r == self.page_spec(),
    {
        self.0
    }
}


/// Why a page could not be mapped.
#[derive(Clone, Copy, Debug, PartialEq, Eq, Structural)]
pub enum MappingError {
    PageAlreadyMapped { to: Frame },
    FrameAllocationFailed,
    MappedToHugePage,
}

/// Why a page or address has no translation.
#[derive(Clone, Copy, Debug, PartialEq, Eq, Structural)]
pub enum TranslationError {
    NotMapped,
    HugePage,
    InvalidFrameAddress(VirtualAddress),
}

impl TranslationError {
    /// The translation error that an entry without a frame gives.
    pub fn from_entry_frame_error(value: EntryFrameError) -> (r: Self)
        ensures
            value == EntryFrameError::NotPresent ==> r == TranslationError::NotMapped,
            value == EntryFrameError::HugePage ==> r == TranslationError::HugePage,
    {
        match value {
            EntryFrameError::NotPresent => TranslationError::NotMapped,
            EntryFrameError::HugePage => TranslationError::HugePage,
        }
    }
}

/// The result of translating an address: its frame, its offset in the frame, and the flags of
/// the level 1 entry that maps it.
#[derive(Clone, Copy, Debug)]
pub struct AddressTranslation {
    pub frame: Frame,
    pub offset: usize,
    pub flags: PageTableFlags,
}

/// The frame an entry value points to.
pub open spec fn entry_frame(value: u64) -> u64 {
    entry_addr(value) / 4096
}

/// An entry value whose address is a physical one.
pub open spec fn physical_entry(value: u64) -> bool {
    is_physical_addr(entry_addr(value))
}

/// Flag bits that leave the address bits alone.
pub open spec fn flag_bits_only(flags: u64) -> bool {
    flags & ADDRESS_MASK == 0
}

/// 512 unused entries.
pub open spec fn empty_table() -> Seq<u64> {
    Seq::new(512, |i: int| 0u64)
}

/// The first index of `frame` in `frames`, or -1.
pub open spec fn find_frame(frames: Seq<u64>, frame: u64) -> int
    decreases frames.len(),
{
    if frames.len() == 0 {
        -1
    } else {
        let k = find_frame(frames.drop_last(), frame);
        if k >= 0 {
            k
        } else if frames.last() == frame {
            frames.len() - 1
        } else {
            -1
        }
    }
}

proof fn lemma_find_frame(frames: Seq<u64>, frame: u64)
    ensures
        -1 <= find_frame(frames, frame) < frames.len(),
        find_frame(frames, frame) >= 0 ==> frames[find_frame(frames, frame)] == frame,
        find_frame(frames, frame) >= 0 ==> forall|j: int|
            0 <= j < find_frame(frames, frame) ==> frames[j] != frame,
        find_frame(frames, frame) < 0 ==> forall|j: int| 0 <= j < frames.len() ==> frames[j] != frame,
    decreases frames.len(),
{
    if frames.len() > 0 {
        let init = frames.drop_last();
        lemma_find_frame(init, frame);
        assert forall|j: int| 0 <= j < init.len() implies init[j] == frames[j] by {}
    }
}

/// The first index of `frame` in `frames` is `k` when `frames[k]` is `frame` and no index
/// before it is.
proof fn lemma_find_frame_at(frames: Seq<u64>, frame: u64, k: int)
    requires
        0 <= k < frames.len(),
        frames[k] == frame,
        forall|j: int| 0 <= j < k ==> frames[j] != frame,
    ensures
        find_frame(frames, frame) == k,
{
    lemma_find_frame(frames, frame);
    let f = find_frame(frames, frame);
    if f < 0 {
        assert(frames[k] != frame);
    } else if f < k {
        assert(frames[f] != frame);
    } else if f > k {
        assert(frames[k] != frame);
    }
}

/// Setting flag bits on a physical, page-aligned address keeps the address.
proof fn lemma_entry_addr_with_flags(a: u64, f: u64)
    requires
        a < 0x0000_8000_0000_0000,
        a & 0xFFF == 0,
        f & ADDRESS_MASK == 0,
    ensures
        entry_addr(a | f) == a,
        (a | f) & PRESENT_BIT == f & PRESENT_BIT,
        (a | f) & HUGE_PAGE_BIT == f & HUGE_PAGE_BIT,
        (a | f) & !ADDRESS_MASK == f,
{
    assert(canonical((a | f) & ADDRESS_MASK) == a) by (bit_vector)
        requires
            a < 0x0000_8000_0000_0000,
            a & 0xFFF == 0,
            f & ADDRESS_MASK == 0,
    ;
    assert((a | f) & PRESENT_BIT == f & PRESENT_BIT) by (bit_vector)
        requires
            a & 0xFFF == 0,
    ;
    assert((a | f) & HUGE_PAGE_BIT == f & HUGE_PAGE_BIT) by (bit_vector)
        requires
            a & 0xFFF == 0,
    ;
    assert((a | f) & !ADDRESS_MASK == f) by (bit_vector)
        requires
            a < 0x0000_8000_0000_0000,
            a & 0xFFF == 0,
            f & ADDRESS_MASK == 0,
    ;
}

/// A physical entry address is page aligned and leaves the flag bits clear.
proof fn lemma_physical_entry_addr(v: u64)
    requires
        physical_entry(v),
    ensures
        entry_addr(v) & 0xFFF == 0,
        entry_addr(v) % 4096 == 0,
{
    assert(canonical(v & ADDRESS_MASK) & 0xFFF == 0) by (bit_vector);
    assert(entry_addr(v) & 0xFFF == 0 ==> entry_addr(v) % 4096 == 0) by (bit_vector);
}

/// A frame of physical memory, as the base of a page table entry.
proof fn lemma_frame_base(f: u64)
    requires
        f * 4096 < 0x0000_8000_0000_0000,
    ensures
        ((f * 4096) as u64) & 0xFFF == 0,
        ((f * 4096) as u64) / 4096 == f,
{
    let a = (f * 4096) as u64;
    assert(a == f * 4096);
    assert(a % 4096 == 0) by (nonlinear_arith)
        requires
            a == f * 4096,
    ;
    assert(a % 4096 == 0 ==> a & 0xFFF == 0) by (bit_vector);
}

/// A level 4 page table and the tables below it. The tables below it live in the physical
/// frames that the entries above them point to; here they are held by frame, and a frame that
/// holds no table reads as one whose entries are all unused.
pub struct Level4PageTable {
    inner: PageTable,
    frames: Vec<u64>,
    entries: Vec<PageTableEntry>,
}

impl Level4PageTable {
    /// The level 4 table.
    pub closed spec fn root(&self) -> Seq<u64> {
        self.inner@
    }

    /// The table held in `frame`.
    pub closed spec fn table(&self, frame: u64) -> Seq<u64> {
        let k = find_frame(self.frames@, frame);
        if k < 0 {
            empty_table()
        } else {
            Seq::new(512, |j: int| self.entries@[512 * k + j]@)
        }
    }

    /// Every table has 512 entries, each of which holds a physical address.
    pub closed spec fn wf(&self) -> bool {
        &&& self.inner.wf()
        &&& self.entries@.len() == 512 * self.frames@.len()
        &&& forall|i: int| 0 <= i < 512 ==> physical_entry(#[trigger] self.inner@[i])
        &&& forall|i: int| 0 <= i < self.entries@.len() ==> physical_entry(#[trigger] self.entries@[i]@)
    }

    proof fn lemma_table(&self, frame: u64)
        requires
            self.wf(),
        ensures
            self.table(frame).len() == 512,
            forall|j: int| 0 <= j < 512 ==> physical_entry(#[trigger] self.table(frame)[j]),
    {
        lemma_find_frame(self.frames@, frame);
        let k = find_frame(self.frames@, frame);
        if k >= 0 {
            assert forall|j: int| 0 <= j < 512 implies physical_entry(#[trigger] self.table(frame)[j]) by {
                assert(0 <= 512 * k + j < self.entries@.len()) by (nonlinear_arith)
                    requires
                        0 <= k < self.frames@.len(),
                        0 <= j < 512,
                        self.entries@.len() == 512 * self.frames@.len(),
                ;
            }
        } else {
            assert forall|j: int| 0 <= j < 512 implies physical_entry(#[trigger] self.table(frame)[j]) by {
                lemma_zero_entry();
            }
        }
    }

    /// The page table whose level 4 table is `table`; no table below it holds anything yet.
    pub fn new(table: PageTable) -> (r: Self)
        requires
            table.wf(),
            forall|i: int| 0 <= i < 512 ==> physical_entry(#[trigger] table@[i]),
        ensures
            r.wf(),
            r.root() == table@,
            forall|f: u64| #[trigger] r.table(f) == empty_table(),
    {
        Level4PageTable { inner: table, frames: Vec::new(), entries: Vec::new() }
    }

    /// The index of the table held in `frame`, if one is.
    fn find(&self, frame: u64) -> (r: Option<usize>)
        ensures
            r is None <==> find_frame(self.frames@, frame) < 0,
            r matches Some(k) ==> k == find_frame(self.frames@, frame),
    {
        proof {
            lemma_find_frame(self.frames@, frame);
        }
        let mut k: usize = 0;
        while k < self.frames.len()
            invariant
                k <= self.frames@.len(),
                forall|j: int| 0 <= j < k ==> self.frames@[j] != frame,
            decreases self.frames@.len() - k,
        {
            if self.frames[k] == frame {
                proof {
                    lemma_find_frame_at(self.frames@, frame, k as int);
                }
                return Some(k);
            }
            k = k + 1;
        }
        None
    }

    /// Entry `index` of the table held in `frame`.
    fn table_entry(&self, frame: u64, index: usize) -> (r: PageTableEntry)
        requires
            self.wf(),
            index < 512,
        ensures
            r@ == self.table(frame)[index as int],
    {
        match self.find(frame) {
            Some(k) => {
                let len = self.entries.len();
                proof {
                    lemma_find_frame(self.frames@, frame);
                    assert(512 * k + index < self.entries@.len()) by (nonlinear_arith)
                        requires
                            k < self.frames@.len(),
                            index < 512,
                            self.entries@.len() == 512 * self.frames@.len(),
                    ;
                }
                self.entries[512 * k + index]
            },
            None => PageTableEntry::new(),
        }
    }

    /// Replaces entry `index` of the table held in `frame` with `entry`.
    fn set_table_entry(&mut self, frame: u64, index: usize, entry: PageTableEntry)
        requires
            old(self).wf(),
            index < 512,
            physical_entry(entry@),
        ensures
            final(self).wf(),
            final(self).root() == old(self).root(),
            final(self).table(frame) == old(self).table(frame).update(index as int, entry@),
            forall|g: u64| g != frame ==> #[trigger] final(self).table(g) == old(self).table(g),
    {
        proof {
            lemma_find_frame(self.frames@, frame);
            old(self).lemma_table(frame);
        }
        let k = match self.find(frame) {
            Some(k) => k,
            None => {
                let n = self.frames.len();
                let mut i: usize = 0;
                while i < 512
                    invariant
                        i <= 512,
                        n == self.frames@.len(),
                        self.frames@ == old(self).frames@,
                        self.inner == old(self).inner,
                        self.entries@.len() == 512 * n + i,
                        forall|j: int| 0 <= j < 512 * n ==> self.entries@[j] == old(self).entries@[j],
                        forall|j: int| 512 * n <= j < 512 * n + i ==> self.entries@[j]@ == 0,
                    decreases 512 - i,
                {
                    self.entries.push(PageTableEntry::new());
                    i = i + 1;
                }
                self.frames.push(frame);
                proof {
                    assert(self.frames@.drop_last() == old(self).frames@);
                    assert(find_frame(self.frames@, frame) == n as int);
                    assert forall|g: u64| g != frame implies find_frame(self.frames@, g) == find_frame(
                        old(self).frames@,
                        g,
                    ) by {
                        assert(self.frames@.drop_last() == old(self).frames@);
                    }
                    assert(forall|j: int| 0 <= j < self.entries@.len() ==> physical_entry(#[trigger] self.entries@[j]@)) by {
                        lemma_zero_entry();
                    }
                    assert(self.table(frame) =~= empty_table());
                    assert forall|g: u64| g != frame implies #[trigger] self.table(g) == old(self).table(g) by {
                        lemma_find_frame(old(self).frames@, g);
                        let kg = find_frame(old(self).frames@, g);
                        if kg >= 0 {
                            assert forall|j: int| 0 <= j < 512 implies #[trigger] self.entries@[512 * kg + j]
                                == old(self).entries@[512 * kg + j] by {
                                assert(512 * kg + j < 512 * n) by (nonlinear_arith)
                                    requires
                                        0 <= kg < n,
                                        0 <= j < 512,
                                ;
                            }
                            assert(self.table(g) =~= old(self).table(g));
                        }
                    }
                }
                n
            },
        };
        let ghost mid = *self;
        let len = self.entries.len();
        proof {
            lemma_find_frame(self.frames@, frame);
            assert(512 * k + index < self.entries@.len()) by (nonlinear_arith)
                requires
                    k < self.frames@.len(),
                    index < 512,
                    self.entries@.len() == 512 * self.frames@.len(),
            ;
        }
        self.entries.set(512 * k + index, entry);
        proof {
            assert(self.table(frame) =~= mid.table(frame).update(index as int, entry@));
            assert forall|g: u64| g != frame implies #[trigger] self.table(g) == mid.table(g) by {
                lemma_find_frame(self.frames@, g);
                let kg = find_frame(self.frames@, g);
                if kg >= 0 {
                    assert(kg != k);
                    assert forall|j: int| 0 <= j < 512 implies #[trigger] self.entries@[512 * kg + j]
                        == mid.entries@[512 * kg + j] by {
                        assert(512 * kg + j != 512 * k + index) by (nonlinear_arith)
                            requires
                                kg != k,
                                0 <= j < 512,
                                index < 512,
                        ;
                    }
                    assert(self.table(g) =~= mid.table(g));
                }
            }
        }
    }

    /// Makes every entry of the table held in `frame` unused.
    fn clear_table(&mut self, frame: u64)
        requires
            old(self).wf(),
        ensures
            final(self).wf(),
            final(self).root() == old(self).root(),
            final(self).table(frame) == empty_table(),
            forall|g: u64| g != frame ==> #[trigger] final(self).table(g) == old(self).table(g),
    {
        let mut i: usize = 0;
        while i < 512
            invariant
                i <= 512,
                self.wf(),
                self.root() == old(self).root(),
                forall|j: int| 0 <= j < i ==> self.table(frame)[j] == 0,
                forall|j: int| i <= j < 512 ==> self.table(frame)[j] == old(self).table(frame)[j],
                forall|g: u64| g != frame ==> #[trigger] self.table(g) == old(self).table(g),
            decreases 512 - i,
        {
            proof {
                lemma_zero_entry();
            }
            self.set_table_entry(frame, i, PageTableEntry::new());
            i = i + 1;
        }
        proof {
            self.lemma_table(frame);
        }
        assert(self.table(frame) =~= empty_table());
    }
}


/// The flags `next_table` gives the entries above a mapping: those of `flags` among present,
/// writable and user accessible.
pub open spec fn parent_flags(flags: u64) -> u64 {
    flags & (PRESENT_BIT | WRITABLE_BIT | USER_ACCESSIBLE_BIT)
}

/// The value an existing entry `v` takes on the way to a mapping with parent flags `p`: its
/// flags grow by `p` when they lack some of it.
pub open spec fn widened_entry(v: u64, p: u64) -> u64 {
    if p != 0 && (v & !ADDRESS_MASK) & p != p {
        entry_addr(v) | ((v & !ADDRESS_MASK) | p)
    } else {
        v
    }
}

/// An unused entry holds address 0, is not present and maps no huge page.
proof fn lemma_zero_entry()
    ensures
        canonical(0u64 & ADDRESS_MASK) == 0,
        0u64 & PRESENT_BIT != PRESENT_BIT,
        0u64 & HUGE_PAGE_BIT != HUGE_PAGE_BIT,
{
    assert(canonical(0u64 & ADDRESS_MASK) == 0 && 0u64 & PRESENT_BIT != PRESENT_BIT && 0u64 & HUGE_PAGE_BIT
        != HUGE_PAGE_BIT) by (bit_vector);
}

/// A present entry is in use.
pub(crate) proof fn lemma_present_nonzero(v: u64)
    requires
        v & PRESENT_BIT == PRESENT_BIT,
    ensures
        v != 0,
{
    assert(v & PRESENT_BIT == PRESENT_BIT ==> v != 0) by (bit_vector);
}

/// Parent flags hold no address bits and no huge page bit.
proof fn lemma_parent_flags(p: u64)
    requires
        p == p & (PRESENT_BIT | WRITABLE_BIT | USER_ACCESSIBLE_BIT),
    ensures
        p & ADDRESS_MASK == 0,
        p & HUGE_PAGE_BIT == 0,
        p & HUGE_PAGE_BIT != HUGE_PAGE_BIT,
{
    assert(p & ADDRESS_MASK == 0 && p & HUGE_PAGE_BIT == 0) by (bit_vector)
        requires
            p == p & (PRESENT_BIT | WRITABLE_BIT | USER_ACCESSIBLE_BIT),
    ;
}

/// Whether an entry leads on to a table: it is in use and does not map a huge page.
pub open spec fn leads_on(v: u64) -> bool {
    v != 0 && !entry_is_huge(v)
}

/// What an entry on the way to a mapping turns into, and the table it then points to: an
/// unused entry gets a fresh table from the allocator (one that is neither `avoid_a` nor
/// `avoid_b`); one in use has its flags widened and must not map a huge page. The returned
/// flag tells whether the table is new.
fn next_table<A: FrameAllocator>(
    entry: PageTableEntry,
    flags: PageTableFlags,
    avoid_a: u64,
    avoid_b: u64,
    allocator: &mut A,
) -> (r: (PageTableEntry, Result<(u64, bool), MappingError>))
    requires
        physical_entry(entry@),
        flags@ == parent_flags(flags@),
        flags@ & PRESENT_BIT == PRESENT_BIT,
        old(allocator).inv(),
    ensures
        final(allocator).inv(),
        physical_entry(r.0@),
        entry@ != 0 ==> r.0@ == widened_entry(entry@, flags@),
        leads_on(entry@) ==> r.1 == Ok::<(u64, bool), MappingError>((entry_frame(entry@), false)),
        entry@ != 0 && entry_is_huge(entry@) ==> r.1 == Err::<(u64, bool), MappingError>(
            MappingError::MappedToHugePage,
        ),
        entry@ == 0 ==> (r.1 is Err ==> r.1 == Err::<(u64, bool), MappingError>(
            MappingError::FrameAllocationFailed,
        ) && r.0 == entry),
        entry@ == 0 ==> (r.1 matches Ok((f, new)) ==> new && f != avoid_a && f != avoid_b
            && r.0@ == (f * 4096) as u64 | flags@ && f * 4096 < 0x0000_8000_0000_0000),
        r.1 matches Ok((f, new)) ==> entry_is_present(r.0@) && !entry_is_huge(r.0@)
            && entry_frame(r.0@) == f,
        entry@ == 0 ==> (r.1 matches Ok((f, new)) ==> !old(allocator).in_use(f)
            && final(allocator).in_use(f)),
        forall|g: u64| old(allocator).in_use(g) ==> #[trigger] final(allocator).in_use(g),
        entry@ != 0 ==> *final(allocator) == *old(allocator),
        entry@ == 0 && old(allocator).exhausted() ==> r.1 == Err::<(u64, bool), MappingError>(
            MappingError::FrameAllocationFailed,
        ) && final(allocator).exhausted(),
        entry@ == 0 && r.1 is Err ==> final(allocator).exhausted() || exists|f: u64|
            !old(allocator).in_use(f) && #[trigger] final(allocator).in_use(f) && (f
                >= 0x0000_0008_0000_0000 || f == avoid_a || f == avoid_b),
{
    let ghost fv: u64 = flags@;
    proof {
        lemma_parent_flags(fv);
    }
    let mut entry = entry;
    if entry.is_unused() {
        match allocator.allocate_frame() {
            Some(frame) => {
                let f = frame.number();
                if f >= 0x0000_0008_0000_0000 || f == avoid_a || f == avoid_b {
                    assert(!old(allocator).in_use(f) && allocator.in_use(f));
                    return (entry, Err(MappingError::FrameAllocationFailed));
                }
                proof {
                    lemma_frame_base(f);
                    lemma_entry_addr_with_flags((f * 4096) as u64, fv);
                }
                entry.set_frame(frame, flags);
                return (entry, Ok((f, true)));
            },
            None => {
                return (entry, Err(MappingError::FrameAllocationFailed));
            },
        }
    }
    let ghost old_value = entry@;
    let current = entry.flags();
    proof {
        lemma_physical_entry_addr(old_value);
    }
    if flags.bits() != 0 && current.intersection(flags).bits() != flags.bits() {
        let widened = current.union(flags);
        proof {
            assert(((old_value & !ADDRESS_MASK) | fv) & ADDRESS_MASK == 0) by (bit_vector)
                requires
                    fv & ADDRESS_MASK == 0,
            ;
            lemma_entry_addr_with_flags(entry_addr(old_value), (old_value & !ADDRESS_MASK) | fv);
        }
        entry.set_flags(widened);
        proof {
            assert((((old_value & !ADDRESS_MASK) | fv) & PRESENT_BIT) == PRESENT_BIT) by (bit_vector)
                requires
                    fv & PRESENT_BIT == PRESENT_BIT,
            ;
            assert(((old_value & !ADDRESS_MASK) | fv) & HUGE_PAGE_BIT == old_value & HUGE_PAGE_BIT)
                by (bit_vector)
                requires
                    fv & HUGE_PAGE_BIT == 0,
            ;
        }
    } else {
        proof {
            assert(fv != 0) by (bit_vector)
                requires
                    fv & PRESENT_BIT == PRESENT_BIT,
            ;
            assert((old_value & !ADDRESS_MASK) & fv == fv ==> old_value & PRESENT_BIT == PRESENT_BIT)
                by (bit_vector)
                requires
                    fv & PRESENT_BIT == PRESENT_BIT,
            ;
        }
    }
    assert(entry_is_present(entry@));
    assert(entry_addr(entry@) == entry_addr(old_value));
    match entry.frame() {
        Ok(frame) => (entry, Ok((frame.number(), false))),
        Err(EntryFrameError::HugePage) => (entry, Err(MappingError::MappedToHugePage)),
        Err(EntryFrameError::NotPresent) => {
            assert(false);
            (entry, Err(MappingError::MappedToHugePage))
        },
    }
}


/// An entry value `before` turns into `after` while flags are set: it stays, or, when in use,
/// has its flags widened by `parent` or becomes its address with `flags`.
pub open spec fn entry_reflagged(before: u64, after: u64, parent: u64, flags: u64) -> bool {
    after == before || (before != 0 && (after == widened_entry(before, parent) || after == (entry_addr(
        before,
    ) | flags)))
}

/// Every entry of `before`, in its level 4 table and in every table it holds, turns into the
/// entry of `after` as [`entry_reflagged`] says.
pub open spec fn reflagged(before: Level4PageTable, after: Level4PageTable, parent: u64, flags: u64) -> bool {
    &&& forall|i: int| 0 <= i < 512 ==> entry_reflagged(#[trigger] before.root()[i], after.root()[i], parent, flags)
    &&& forall|g: u64, j: int|
        0 <= j < 512 ==> entry_reflagged(#[trigger] before.table(g)[j], after.table(g)[j], parent, flags)
}

/// What setting flags leaves of an entry: an unused one stays unused; one in use keeps its
/// address, and a present one that maps no huge page stays so; one that is already its address
/// with `flags` stays as it is.
proof fn lemma_reflagged_entry(v: u64, after: u64, p: u64, f: u64)
    requires
        physical_entry(v),
        entry_reflagged(v, after, p, f),
        p == parent_flags(f),
        f & PRESENT_BIT == PRESENT_BIT,
        f & HUGE_PAGE_BIT == 0,
        flag_bits_only(f),
    ensures
        v == 0 ==> after == 0,
        v != 0 ==> after != 0,
        v != 0 ==> entry_addr(after) == entry_addr(v),
        entry_is_present(v) && !entry_is_huge(v) ==> entry_is_present(after) && !entry_is_huge(after),
        v == (entry_addr(v) | f) ==> after == v,
        v != 0 && (after == v || after == widened_entry(v, p)) ==> entry_is_huge(after) == entry_is_huge(v),
{
    if v != 0 {
        let a = entry_addr(v);
        lemma_physical_entry_addr(v);
        assert(p & ADDRESS_MASK == 0 && p & HUGE_PAGE_BIT == 0 && p & PRESENT_BIT == PRESENT_BIT && f & p
            == p) by (bit_vector)
            requires
                p == f & (PRESENT_BIT | WRITABLE_BIT | USER_ACCESSIBLE_BIT),
                f & PRESENT_BIT == PRESENT_BIT,
        ;
        let w = (v & !ADDRESS_MASK) | p;
        assert(w & ADDRESS_MASK == 0 && w & PRESENT_BIT == PRESENT_BIT && w & HUGE_PAGE_BIT == v
            & HUGE_PAGE_BIT) by (bit_vector)
            requires
                w == (v & !ADDRESS_MASK) | p,
                p & ADDRESS_MASK == 0,
                p & HUGE_PAGE_BIT == 0,
                p & PRESENT_BIT == PRESENT_BIT,
        ;
        lemma_entry_addr_with_flags(a, w);
        lemma_entry_addr_with_flags(a, f);
        if after == widened_entry(v, p) && p != 0 && (v & !ADDRESS_MASK) & p != p {
            assert(after == (a | w));
        }
        if v == (a | f) {
            assert((v & !ADDRESS_MASK) & p == p);
        }
        if after != v {
            lemma_present_nonzero(after);
        }
    }
}

/// Whether page `q` keeps in `cur` what it had in `old`: the way to it is present and held
/// in different frames, its translation is the same, and its level 1 entry is unused in both
/// or in use in both with the same address.
pub open spec fn page_kept(old: Level4PageTable, cur: Level4PageTable, q: int) -> bool {
    let a = (q * 4096) as u64;
    &&& cur.path_present(a)
    &&& cur.path_distinct(a)
    &&& cur.spec_translate_page(q as u64) == old.spec_translate_page(q as u64)
    &&& old.l1_entry(a) == 0 ==> cur.l1_entry(a) == 0
    &&& old.l1_entry(a) != 0 ==> cur.l1_entry(a) != 0 && entry_addr(cur.l1_entry(a)) == entry_addr(
        old.l1_entry(a),
    )
}

/// Setting flags keeps the way to any page whose way is present: it stays present, through
/// the same tables, and its level 1 entry changes only as [`entry_reflagged`] says.
proof fn lemma_reflagged_path(cur: Level4PageTable, next: Level4PageTable, p: u64, f: u64, a: u64)
    requires
        cur.wf(),
        next.wf(),
        reflagged(cur, next, p, f),
        cur.path_present(a),
        p == parent_flags(f),
        f & PRESENT_BIT == PRESENT_BIT,
        f & HUGE_PAGE_BIT == 0,
        flag_bits_only(f),
    ensures
        next.path_present(a),
        cur.path_distinct(a) ==> next.path_distinct(a),
        entry_reflagged(cur.l1_entry(a), next.l1_entry(a), p, f),
        cur.l1_entry(a) == 0 ==> next.l1_entry(a) == 0,
        cur.l1_entry(a) != 0 ==> next.l1_entry(a) != 0 && entry_addr(next.l1_entry(a)) == entry_addr(
            cur.l1_entry(a),
        ),
        cur.l1_entry(a) == (entry_addr(cur.l1_entry(a)) | f) ==> next.l1_entry(a) == cur.l1_entry(a),
        next.walk(a) is Ok <==> cur.walk(a) is Ok,
        cur.walk(a) is Ok ==> entry_frame(next.l1_entry(a)) == entry_frame(cur.l1_entry(a)),
{
    let i4 = table_index(a, 39) as int;
    let i3 = table_index(a, 30) as int;
    let i2 = table_index(a, 21) as int;
    let i1 = table_index(a, 12) as int;
    let r4 = cur.root()[i4];
    lemma_reflagged_entry(r4, next.root()[i4], p, f);
    let g3 = entry_frame(r4);
    cur.lemma_table(g3);
    let r3 = cur.table(g3)[i3];
    assert(entry_frame(next.root()[i4]) == g3);
    assert(next.l3_entry(a) == next.table(g3)[i3]);
    lemma_reflagged_entry(r3, next.table(g3)[i3], p, f);
    let g2 = entry_frame(r3);
    cur.lemma_table(g2);
    let r2 = cur.table(g2)[i2];
    assert(next.l2_entry(a) == next.table(g2)[i2]);
    lemma_reflagged_entry(r2, next.table(g2)[i2], p, f);
    let g1 = entry_frame(r2);
    cur.lemma_table(g1);
    assert(next.l1_entry(a) == next.table(g1)[i1]);
    lemma_reflagged_entry(cur.table(g1)[i1], next.table(g1)[i1], p, f);
    lemma_present_nonzero(r4);
    lemma_present_nonzero(r3);
    lemma_present_nonzero(r2);
    lemma_present_nonzero(next.root()[i4]);
    lemma_present_nonzero(next.table(g3)[i3]);
    lemma_present_nonzero(next.table(g2)[i2]);
}

/// The tables on the way to `addr` in `pt` are held in frames that `a` has in use.
pub open spec fn path_in_use<A: FrameAllocator>(pt: Level4PageTable, addr: u64, a: A) -> bool {
    let e4 = pt.root()[table_index(addr, 39) as int];
    let e3 = pt.l3_entry(addr);
    let e2 = pt.l2_entry(addr);
    &&& leads_on(e4) ==> a.in_use(entry_frame(e4))
    &&& leads_on(e4) && leads_on(e3) ==> a.in_use(entry_frame(e3))
    &&& leads_on(e4) && leads_on(e3) && leads_on(e2) ==> a.in_use(entry_frame(e2))
}

/// `a` counts every frame beyond those a page table entry can hold as in use, so it never
/// hands one out.
pub open spec fn holds_back_high_frames<A: FrameAllocator>(a: A) -> bool {
    forall|f: u64| f >= 0x0000_0008_0000_0000 ==> #[trigger] a.in_use(f)
}

/// What mapping a page at `addr` does to the tables of `before`, giving `after`, when the
/// entries on the way get the parent flags `parent`: the level 4 entry and the tables on the way
/// are the only ones that change; an entry on the way that was in use keeps its table and has
/// its flags widened; a table that was missing is a new one, empty but for the entry on the way;
/// in each table on the way only the entry on the way may change; the three tables are held in
/// different frames.
pub open spec fn mapped_along(before: Level4PageTable, after: Level4PageTable, addr: u64, parent: u64) -> bool {
    let i4 = table_index(addr, 39) as int;
    let i3 = table_index(addr, 30) as int;
    let i2 = table_index(addr, 21) as int;
    let i1 = table_index(addr, 12) as int;
    let e4 = before.root()[i4];
    let e3 = if e4 == 0 { 0u64 } else { before.l3_entry(addr) };
    let e2 = if e3 == 0 { 0u64 } else { before.l2_entry(addr) };
    let f3 = entry_frame(after.root()[i4]);
    let f2 = entry_frame(after.l3_entry(addr));
    let f1 = entry_frame(after.l2_entry(addr));
    &&& after.root() == before.root().update(i4, after.root()[i4])
    &&& e4 != 0 ==> after.root()[i4] == widened_entry(e4, parent)
    &&& e3 != 0 ==> after.l3_entry(addr) == widened_entry(e3, parent)
    &&& e2 != 0 ==> after.l2_entry(addr) == widened_entry(e2, parent)
    &&& e4 != 0 ==> f3 == entry_frame(e4)
    &&& e3 != 0 ==> f2 == entry_frame(e3)
    &&& e2 != 0 ==> f1 == entry_frame(e2)
    &&& f3 != f2 && f3 != f1 && f2 != f1
    &&& forall|g: u64| g != f3 && g != f2 && g != f1 ==> #[trigger] after.table(g) == before.table(g)
    &&& forall|j: int|
        0 <= j < 512 && j != i3 ==> #[trigger] after.table(f3)[j] == if e4 == 0 {
            0u64
        } else {
            before.table(f3)[j]
        }
    &&& forall|j: int|
        0 <= j < 512 && j != i2 ==> #[trigger] after.table(f2)[j] == if e3 == 0 {
            0u64
        } else {
            before.table(f2)[j]
        }
    &&& forall|j: int|
        0 <= j < 512 && j != i1 ==> #[trigger] after.table(f1)[j] == if e2 == 0 {
            0u64
        } else {
            before.table(f1)[j]
        }
}

/// The tables that mapping a page at `addr` had to make were held in frames that `a0` had
/// not in use, and `a1` has.
pub open spec fn fresh_tables<A: FrameAllocator>(
    before: Level4PageTable,
    after: Level4PageTable,
    addr: u64,
    a0: A,
    a1: A,
) -> bool {
    let e4 = before.root()[table_index(addr, 39) as int];
    let e3 = if e4 == 0 { 0u64 } else { before.l3_entry(addr) };
    let e2 = if e3 == 0 { 0u64 } else { before.l2_entry(addr) };
    &&& e4 == 0 ==> !a0.in_use(entry_frame(after.root()[table_index(addr, 39) as int])) && a1.in_use(
        entry_frame(after.root()[table_index(addr, 39) as int]),
    )
    &&& e3 == 0 ==> !a0.in_use(entry_frame(after.l3_entry(addr))) && a1.in_use(
        entry_frame(after.l3_entry(addr)),
    )
    &&& e2 == 0 ==> !a0.in_use(entry_frame(after.l2_entry(addr))) && a1.in_use(
        entry_frame(after.l2_entry(addr)),
    )
}

/// An entry in use, in a table that `a0` holds, is kept or only widened by a mapping at
/// `addr` that turned `before` into `after` as [`mapped_along`] and [`fresh_tables`] say, when
/// the way to `addr` met no huge page and no level 1 entry in use.
proof fn lemma_held_entry_kept<A: FrameAllocator>(
    before: Level4PageTable,
    after: Level4PageTable,
    addr: u64,
    parent: u64,
    a0: A,
    a1: A,
    t: u64,
    j: int,
)
    requires
        mapped_along(before, after, addr, parent),
        fresh_tables(before, after, addr, a0, a1),
        !before.reaches_huge_page(addr),
        before.tables_exist(addr) ==> before.l1_entry(addr) == 0,
        a0.in_use(t),
        0 <= j < 512,
        before.table(t)[j] != 0,
    ensures
        after.table(t)[j] == before.table(t)[j] || after.table(t)[j] == widened_entry(
            before.table(t)[j],
            parent,
        ),
{
    let i4 = table_index(addr, 39) as int;
    let i3 = table_index(addr, 30) as int;
    let i2 = table_index(addr, 21) as int;
    let i1 = table_index(addr, 12) as int;
    let e4 = before.root()[i4];
    let e3 = if e4 == 0 { 0u64 } else { before.l3_entry(addr) };
    let e2 = if e3 == 0 { 0u64 } else { before.l2_entry(addr) };
    let f3 = entry_frame(after.root()[i4]);
    let f2 = entry_frame(after.l3_entry(addr));
    let f1 = entry_frame(after.l2_entry(addr));
    if t == f3 {
        assert(e4 != 0);
        if j == i3 {
            assert(before.table(t)[j] == e3);
        }
    } else if t == f2 {
        assert(e3 != 0);
        if j == i2 {
            assert(before.table(t)[j] == e2);
        }
    } else if t == f1 {
        assert(e2 != 0);
        if j == i1 {
            assert(leads_on(before.root()[i4]) && leads_on(before.l3_entry(addr)) && leads_on(
                before.l2_entry(addr),
            ));
            assert(before.table(t)[j] == before.l1_entry(addr));
        }
    }
}

/// Mapping one page leaves every other mapped page as it was. Say a mapping at `addr` turned
/// `before` into `after` as [`Level4PageTable::map_to`] does when it succeeds with flags
/// `flags`: the entries on the way widened or given tables in frames that `a0` had free (`a1`
/// is the allocator after it), the way to `addr` meeting no huge page and no level 1 entry in
/// use. Then page `q`, mapped in `before` through tables that `a0` holds, stays mapped
/// through the same tables, still held, to the same frame.
pub proof fn law_mapping_keeps_other_pages<A: FrameAllocator>(
    before: Level4PageTable,
    after: Level4PageTable,
    addr: u64,
    flags: u64,
    a0: A,
    a1: A,
    q: u64,
)
    requires
        before.wf(),
        flags & PRESENT_BIT == PRESENT_BIT,
        flags & HUGE_PAGE_BIT == 0,
        flag_bits_only(flags),
        mapped_along(before, after, addr, parent_flags(flags)),
        fresh_tables(before, after, addr, a0, a1),
        forall|g: u64| a0.in_use(g) ==> #[trigger] a1.in_use(g),
        !before.reaches_huge_page(addr),
        before.tables_exist(addr) ==> before.l1_entry(addr) == 0,
        before.path_present((q * 4096) as u64),
        path_in_use(before, (q * 4096) as u64, a0),
        before.l1_entry((q * 4096) as u64) != 0,
    ensures
        after.path_present((q * 4096) as u64),
        path_in_use(after, (q * 4096) as u64, a1),
        after.l1_entry((q * 4096) as u64) != 0,
        entry_addr(after.l1_entry((q * 4096) as u64)) == entry_addr(before.l1_entry((q * 4096) as u64)),
        after.spec_translate_page(q) is Ok,
        after.spec_translate_page(q) == before.spec_translate_page(q),
        entry_frame(after.root()[table_index((q * 4096) as u64, 39) as int]) == entry_frame(
            before.root()[table_index((q * 4096) as u64, 39) as int],
        ),
        entry_frame(after.l3_entry((q * 4096) as u64)) == entry_frame(before.l3_entry((q * 4096) as u64)),
        entry_frame(after.l2_entry((q * 4096) as u64)) == entry_frame(before.l2_entry((q * 4096) as u64)),
{
    let a = (q * 4096) as u64;
    let p = parent_flags(flags);
    let i4 = table_index(a, 39) as int;
    let i3 = table_index(a, 30) as int;
    let i2 = table_index(a, 21) as int;
    let i1 = table_index(a, 12) as int;
    let r4 = before.root()[i4];
    lemma_present_nonzero(r4);
    let r4n = after.root()[i4];
    if i4 == table_index(addr, 39) as int {
        assert(r4n == widened_entry(r4, p));
    } else {
        assert(r4n == r4);
    }
    lemma_reflagged_entry(r4, r4n, p, flags);
    let g3 = entry_frame(r4);
    assert(entry_frame(r4n) == g3);
    before.lemma_table(g3);
    let r3 = before.table(g3)[i3];
    lemma_present_nonzero(r3);
    lemma_held_entry_kept(before, after, addr, p, a0, a1, g3, i3);
    let r3n = after.table(g3)[i3];
    lemma_reflagged_entry(r3, r3n, p, flags);
    assert(after.l3_entry(a) == r3n);
    let g2 = entry_frame(r3);
    before.lemma_table(g2);
    let r2 = before.table(g2)[i2];
    lemma_present_nonzero(r2);
    lemma_held_entry_kept(before, after, addr, p, a0, a1, g2, i2);
    let r2n = after.table(g2)[i2];
    lemma_reflagged_entry(r2, r2n, p, flags);
    assert(after.l2_entry(a) == r2n);
    let g1 = entry_frame(r2);
    before.lemma_table(g1);
    let r1 = before.table(g1)[i1];
    lemma_held_entry_kept(before, after, addr, p, a0, a1, g1, i1);
    let r1n = after.table(g1)[i1];
    lemma_reflagged_entry(r1, r1n, p, flags);
    assert(after.l1_entry(a) == r1n);
    lemma_present_nonzero(r4n);
    lemma_present_nonzero(r3n);
    lemma_present_nonzero(r2n);
}

/// The flags of kernel data, present and writable, those of user pages, present, writable and
/// user accessible, and those of a user stack, never executed too, are flags a mapping can be
/// made with.
pub proof fn lemma_mapping_flags()
    ensures
        (PRESENT_BIT | WRITABLE_BIT) & PRESENT_BIT == PRESENT_BIT,
        (PRESENT_BIT | WRITABLE_BIT) & HUGE_PAGE_BIT == 0,
        (PRESENT_BIT | WRITABLE_BIT) & ADDRESS_MASK == 0,
        (PRESENT_BIT | WRITABLE_BIT) & (PRESENT_BIT | WRITABLE_BIT | USER_ACCESSIBLE_BIT) == PRESENT_BIT
            | WRITABLE_BIT,
        (PRESENT_BIT | WRITABLE_BIT | USER_ACCESSIBLE_BIT) & PRESENT_BIT == PRESENT_BIT,
        (PRESENT_BIT | WRITABLE_BIT | USER_ACCESSIBLE_BIT) & HUGE_PAGE_BIT == 0,
        (PRESENT_BIT | WRITABLE_BIT | USER_ACCESSIBLE_BIT) & ADDRESS_MASK == 0,
        (PRESENT_BIT | WRITABLE_BIT | USER_ACCESSIBLE_BIT | NO_EXECUTE_BIT) & PRESENT_BIT == PRESENT_BIT,
        (PRESENT_BIT | WRITABLE_BIT | USER_ACCESSIBLE_BIT | NO_EXECUTE_BIT) & HUGE_PAGE_BIT == 0,
        (PRESENT_BIT | WRITABLE_BIT | USER_ACCESSIBLE_BIT | NO_EXECUTE_BIT) & ADDRESS_MASK == 0,
{
    assert((PRESENT_BIT | WRITABLE_BIT) & PRESENT_BIT == PRESENT_BIT && (PRESENT_BIT | WRITABLE_BIT)
        & HUGE_PAGE_BIT == 0 && (PRESENT_BIT | WRITABLE_BIT) & ADDRESS_MASK == 0 && (PRESENT_BIT
        | WRITABLE_BIT) & (PRESENT_BIT | WRITABLE_BIT | USER_ACCESSIBLE_BIT) == PRESENT_BIT | WRITABLE_BIT
        && (PRESENT_BIT | WRITABLE_BIT | USER_ACCESSIBLE_BIT) & PRESENT_BIT == PRESENT_BIT && (PRESENT_BIT
        | WRITABLE_BIT | USER_ACCESSIBLE_BIT) & HUGE_PAGE_BIT == 0 && (PRESENT_BIT | WRITABLE_BIT
        | USER_ACCESSIBLE_BIT) & ADDRESS_MASK == 0 && (PRESENT_BIT | WRITABLE_BIT | USER_ACCESSIBLE_BIT
        | NO_EXECUTE_BIT) & PRESENT_BIT == PRESENT_BIT && (PRESENT_BIT | WRITABLE_BIT | USER_ACCESSIBLE_BIT
        | NO_EXECUTE_BIT) & HUGE_PAGE_BIT == 0 && (PRESENT_BIT | WRITABLE_BIT | USER_ACCESSIBLE_BIT
        | NO_EXECUTE_BIT) & ADDRESS_MASK == 0) by (bit_vector);
}

/// An entry that is unused, or that leads on, present, to a table of level `level` in `levels`.
pub open spec fn held_entry(v: u64, levels: Map<u64, int>, level: int) -> bool {
    v == 0 || (entry_is_present(v) && !entry_is_huge(v) && levels.dom().contains(entry_frame(v))
        && levels[entry_frame(v)] == level)
}

/// The tables under the level 4 entries `slots` of `pt` form a hierarchy that `a` holds:
/// `levels` gives each of them its level and `a` has its frame in use; each of those level 4
/// entries is unused or leads on to a level 3 table, and each entry of a table of level 3 or 2
/// is unused or leads on to a table one level down.
pub open spec fn leveled<A: FrameAllocator>(
    pt: Level4PageTable,
    a: A,
    slots: Set<int>,
    levels: Map<u64, int>,
) -> bool {
    &&& forall|f: u64| #[trigger] levels.dom().contains(f) ==> a.in_use(f) && 1 <= levels[f] <= 3
    &&& forall|i: int| #[trigger] slots.contains(i) ==> 0 <= i < 512 && held_entry(pt.root()[i], levels, 3)
    &&& forall|f: u64, j: int|
        levels.dom().contains(f) && levels[f] >= 2 && 0 <= j < 512 ==> held_entry(
            #[trigger] pt.table(f)[j],
            levels,
            levels[f] - 1,
        )
}

/// The level 4 entry that page `q` lies under.
pub open spec fn page_slot(q: int) -> int {
    table_index((q * 4096) as u64, 39) as int
}

/// The tables under the level 4 entries `slots` of `pt` form a hierarchy that `a` holds, with
/// some levels ([`leveled`]).
pub open spec fn hierarchy<A: FrameAllocator>(pt: Level4PageTable, a: A, slots: Set<int>) -> bool {
    exists|levels: Map<u64, int>| leveled(pt, a, slots, levels)
}

/// The level 4 entries that the pages from `start` up to `end` lie under.
pub open spec fn slots_between(start: int, end: int) -> Set<int> {
    Set::new(|i: int| exists|q: int| start <= q < end && i == #[trigger] page_slot(q))
}

/// The level 4 entries that the pages of `pages` lie under.
pub open spec fn slots_of(pages: PageRange) -> Set<int> {
    slots_between(pages.start@ as int, pages.end@ as int)
}

/// When the level 4 entries `slots` are all unused, the tables under them form a hierarchy,
/// with no table in it yet.
pub proof fn law_unused_slots_are_leveled<A: FrameAllocator>(pt: Level4PageTable, a: A, slots: Set<int>)
    requires
        forall|i: int| #[trigger] slots.contains(i) ==> 0 <= i < 512 && pt.root()[i] == 0,
    ensures
        leveled(pt, a, slots, Map::<u64, int>::empty()),
{
}

/// On the way to `x`, under one of the level 4 entries of a hierarchy, the tables are of
/// levels 3, 2 and 1 in turn, so in different frames, held, and no huge page is met.
pub(crate) proof fn lemma_leveled_path<A: FrameAllocator>(
    pt: Level4PageTable,
    a: A,
    slots: Set<int>,
    levels: Map<u64, int>,
    x: u64,
)
    requires
        leveled(pt, a, slots, levels),
        slots.contains(table_index(x, 39) as int),
    ensures
        pt.path_distinct(x),
        path_in_use(pt, x, a),
        !pt.reaches_huge_page(x),
        leads_on(pt.root()[table_index(x, 39) as int]) ==> levels[entry_frame(pt.root()[table_index(x, 39) as int])] == 3,
        leads_on(pt.root()[table_index(x, 39) as int]) && leads_on(pt.l3_entry(x)) ==> levels[entry_frame(pt.l3_entry(x))] == 2,
        pt.tables_exist(x) ==> levels.dom().contains(entry_frame(pt.l2_entry(x))) && levels[entry_frame(pt.l2_entry(x))] == 1,
        pt.tables_exist(x) ==> pt.path_present(x),
{
    let e4 = pt.root()[table_index(x, 39) as int];
    if leads_on(e4) {
        let t3 = entry_frame(e4);
        assert(held_entry(pt.table(t3)[table_index(x, 30) as int], levels, 2));
        let e3 = pt.l3_entry(x);
        if leads_on(e3) {
            let t2 = entry_frame(e3);
            assert(held_entry(pt.table(t2)[table_index(x, 21) as int], levels, 1));
        }
    }
}

/// The levels of a hierarchy once a mapping at `addr` has made the tables that were missing
/// on the way: those new tables get levels 3, 2 and 1.
pub open spec fn step_levels(
    before: Level4PageTable,
    after: Level4PageTable,
    addr: u64,
    levels: Map<u64, int>,
) -> Map<u64, int> {
    let i4 = table_index(addr, 39) as int;
    let e4 = before.root()[i4];
    let e3 = if e4 == 0 { 0u64 } else { before.l3_entry(addr) };
    let e2 = if e3 == 0 { 0u64 } else { before.l2_entry(addr) };
    let m3 = if e4 == 0 { levels.insert(entry_frame(after.root()[i4]), 3) } else { levels };
    let m2 = if e3 == 0 { m3.insert(entry_frame(after.l3_entry(addr)), 2) } else { m3 };
    if e2 == 0 { m2.insert(entry_frame(after.l2_entry(addr)), 1) } else { m2 }
}

/// Mapping a page under one of the level 4 entries of a hierarchy keeps it a hierarchy, the
/// new tables taking their levels.
#[verifier::rlimit(40)]
pub(crate) proof fn lemma_leveled_step<A: FrameAllocator>(
    before: Level4PageTable,
    after: Level4PageTable,
    addr: u64,
    flags: u64,
    a0: A,
    a1: A,
    slots: Set<int>,
    levels: Map<u64, int>,
)
    requires
        before.wf(),
        flags & PRESENT_BIT == PRESENT_BIT,
        flags & HUGE_PAGE_BIT == 0,
        flag_bits_only(flags),
        leveled(before, a0, slots, levels),
        slots.contains(table_index(addr, 39) as int),
        mapped_along(before, after, addr, parent_flags(flags)),
        fresh_tables(before, after, addr, a0, a1),
        forall|g: u64| a0.in_use(g) ==> #[trigger] a1.in_use(g),
        after.path_present(addr),
    ensures
        leveled(after, a1, slots, step_levels(before, after, addr, levels)),
{
    let p = parent_flags(flags);
    let i4 = table_index(addr, 39) as int;
    let i3 = table_index(addr, 30) as int;
    let i2 = table_index(addr, 21) as int;
    let e4 = before.root()[i4];
    let e3 = if e4 == 0 { 0u64 } else { before.l3_entry(addr) };
    let e2 = if e3 == 0 { 0u64 } else { before.l2_entry(addr) };
    let n4 = after.root()[i4];
    let n3 = after.l3_entry(addr);
    let n2 = after.l2_entry(addr);
    let f3 = entry_frame(n4);
    let f2 = entry_frame(n3);
    let f1 = entry_frame(n2);
    let lv = step_levels(before, after, addr, levels);
    lemma_leveled_path(before, a0, slots, levels, addr);
    assert(entry_is_present(n4) && !entry_is_huge(n4));
    assert(entry_is_present(n3) && !entry_is_huge(n3));
    assert(entry_is_present(n2) && !entry_is_huge(n2));
    // The frames that held tables keep their levels.
    assert forall|f: u64| #[trigger] levels.dom().contains(f) implies lv.dom().contains(f) && lv[f]
        == levels[f] by {
        if e4 == 0 {
            assert(!a0.in_use(f3));
        }
        if e3 == 0 {
            assert(!a0.in_use(f2));
        }
        if e2 == 0 {
            assert(!a0.in_use(f1));
        }
    }
    if e4 != 0 {
        before.lemma_table(f3);
        lemma_reflagged_entry(e4, n4, p, flags);
        assert(levels[f3] == 3);
    }
    if e3 != 0 {
        before.lemma_table(f2);
        lemma_reflagged_entry(e3, n3, p, flags);
        assert(e3 == before.l3_entry(addr));
        assert(levels[f2] == 2);
    }
    if e2 != 0 {
        lemma_reflagged_entry(e2, n2, p, flags);
        assert(e2 == before.l2_entry(addr));
        assert(levels[f1] == 1);
    }
    assert(lv.dom().contains(f3) && lv[f3] == 3);
    assert(lv.dom().contains(f2) && lv[f2] == 2);
    assert(lv.dom().contains(f1) && lv[f1] == 1);
    assert forall|f: u64| #[trigger] lv.dom().contains(f) implies a1.in_use(f) && 1 <= lv[f] <= 3 by {
        if levels.dom().contains(f) {
            assert(a0.in_use(f));
        }
    }
    assert forall|i: int| #[trigger] slots.contains(i) implies 0 <= i < 512 && held_entry(
        after.root()[i],
        lv,
        3,
    ) by {
        assert(held_entry(before.root()[i], levels, 3));
        if i != i4 {
            assert(after.root()[i] == before.root()[i]);
            if before.root()[i] != 0 {
                assert(levels.dom().contains(entry_frame(before.root()[i])));
            }
        }
    }
    assert forall|f: u64, j: int|
        lv.dom().contains(f) && lv[f] >= 2 && 0 <= j < 512 implies held_entry(
        #[trigger] after.table(f)[j],
        lv,
        lv[f] - 1,
    ) by {
        if f == f3 {
            if j != i3 && e4 != 0 {
                let v = before.table(f3)[j];
                assert(held_entry(v, levels, 2));
                if v != 0 {
                    assert(levels.dom().contains(entry_frame(v)));
                }
            }
        } else if f == f2 {
            if j != i2 && e3 != 0 {
                let v = before.table(f2)[j];
                assert(held_entry(v, levels, 1));
                if v != 0 {
                    assert(levels.dom().contains(entry_frame(v)));
                }
            }
        } else if f == f1 {
            assert(lv[f] == 1);
        } else {
            assert(levels.dom().contains(f));
            assert(after.table(f) == before.table(f));
            let v = before.table(f)[j];
            assert(held_entry(v, levels, levels[f] - 1));
            if v != 0 {
                assert(levels.dom().contains(entry_frame(v)));
            }
        }
    }
}

/// One successful mapping at `addr` with `flags` turned `pt0` into `pt1` and the allocator
/// `a0` into `a1`, as [`Level4PageTable::map_to`] says of a way whose tables are in different
/// frames.
pub open spec fn mapping_step<A: FrameAllocator>(
    pt0: Level4PageTable,
    a0: A,
    pt1: Level4PageTable,
    a1: A,
    addr: u64,
    flags: u64,
) -> bool {
    &&& pt0.wf()
    &&& mapped_along(pt0, pt1, addr, parent_flags(flags))
    &&& fresh_tables(pt0, pt1, addr, a0, a1)
    &&& forall|g: u64| a0.in_use(g) ==> #[trigger] a1.in_use(g)
    &&& pt1.walk(addr) is Ok
}

/// A hierarchy stays one through successive mappings under its level 4 entries.
pub(crate) proof fn lemma_leveled_steps<A: FrameAllocator>(
    pts: Seq<Level4PageTable>,
    als: Seq<A>,
    addrs: Seq<u64>,
    flags: u64,
    slots: Set<int>,
    levels: Map<u64, int>,
)
    requires
        pts.len() == addrs.len() + 1,
        als.len() == pts.len(),
        flags & PRESENT_BIT == PRESENT_BIT,
        flags & HUGE_PAGE_BIT == 0,
        flag_bits_only(flags),
        leveled(pts[0], als[0], slots, levels),
        forall|i: int|
            0 <= i < addrs.len() ==> mapping_step(pts[i], als[i], pts[i + 1], als[i + 1], #[trigger] addrs[i], flags)
                && slots.contains(table_index(addrs[i], 39) as int),
    ensures
        exists|l: Map<u64, int>| leveled(pts.last(), als.last(), slots, l),
    decreases addrs.len(),
{
    if addrs.len() == 0 {
        assert(leveled(pts.last(), als.last(), slots, levels));
    } else {
        let n = addrs.len() - 1;
        let p2 = pts.subrange(0, n + 1);
        let a2 = als.subrange(0, n + 1);
        let d2 = addrs.subrange(0, n);
        assert forall|i: int| 0 <= i < d2.len() implies mapping_step(p2[i], a2[i], p2[i + 1], a2[i + 1], #[trigger] d2[i], flags)
            && slots.contains(table_index(d2[i], 39) as int) by {
            assert(addrs[i] == d2[i]);
        }
        lemma_leveled_steps(p2, a2, d2, flags, slots, levels);
        let l = choose|l: Map<u64, int>| leveled(p2.last(), a2.last(), slots, l);
        assert(p2.last() == pts[n] && a2.last() == als[n]);
        assert(mapping_step(pts[n], als[n], pts[n + 1], als[n + 1], addrs[n], flags));
        lemma_leveled_step(pts[n], pts[n + 1], addrs[n], flags, als[n], als[n + 1], slots, l);
        assert(leveled(pts.last(), als.last(), slots, step_levels(pts[n], pts[n + 1], addrs[n], l)));
    }
}

/// A hierarchy under some level 4 entries is one under fewer of them.
pub(crate) proof fn lemma_leveled_fewer_slots<A: FrameAllocator>(
    pt: Level4PageTable,
    a: A,
    slots: Set<int>,
    fewer: Set<int>,
    levels: Map<u64, int>,
)
    requires
        leveled(pt, a, slots, levels),
        fewer.subset_of(slots),
    ensures
        leveled(pt, a, fewer, levels),
{
    assert forall|i: int| #[trigger] fewer.contains(i) implies 0 <= i < 512 && held_entry(pt.root()[i], levels, 3) by {
        assert(slots.contains(i));
    }
}

/// Page `q`'s address.
pub open spec fn page_addr(q: int) -> u64 {
    (q * 4096) as u64
}

/// What setting flags `flags` has left of page `q` of `before` in `cur`: unmapped it stays
/// unmapped; mapped it stays on its frame, its level 1 entry given `flags`, or, while it is
/// not below `bound` (not done yet), possibly still as it was.
pub open spec fn reflag_kept(before: Level4PageTable, cur: Level4PageTable, q: int, flags: u64, bound: int) -> bool {
    let qa = page_addr(q);
    let done = q < bound;
    &&& before.walk(qa) is Err ==> cur.walk(qa) is Err
    &&& before.walk(qa) is Ok ==> cur.walk(qa) is Ok && entry_addr(cur.l1_entry(qa)) == entry_addr(
        before.l1_entry(qa),
    ) && (cur.l1_entry(qa) == (entry_addr(before.l1_entry(qa)) | flags) || (!done && cur.l1_entry(qa)
        == before.l1_entry(qa)))
}

/// Every page of `pages` that was mapped in `before` is mapped in `after` to the same frame
/// with exactly `flags`, and every other page of `pages` is still unmapped.
pub open spec fn flags_given(before: Level4PageTable, after: Level4PageTable, pages: PageRange, flags: u64) -> bool {
    forall|q: int|
        pages.start@ <= q < pages.end@ ==> (before.walk(#[trigger] page_addr(q)) is Err ==> after.walk(
            page_addr(q),
        ) is Err) && (before.walk(page_addr(q)) is Ok ==> after.walk(page_addr(q)) == Ok::<
            u64,
            TranslationError,
        >(entry_addr(before.l1_entry(page_addr(q))) | flags))
}

/// In a hierarchy, setting the flags of the page at `addr`, which widens the entries on its
/// way, makes the missing tables on it and gives its level 1 entry the flags `flags` when in
/// use, leaves a page at `qa` that was not mapped unmapped, and one that was mapped on the
/// same frame, its level 1 entry kept or given `flags`.
pub(crate) proof fn lemma_leveled_reflag_keeps<A: FrameAllocator>(
    before: Level4PageTable,
    after: Level4PageTable,
    addr: u64,
    flags: u64,
    a0: A,
    a1: A,
    slots: Set<int>,
    levels: Map<u64, int>,
    qa: u64,
)
    requires
        before.wf(),
        flags & PRESENT_BIT == PRESENT_BIT,
        flags & HUGE_PAGE_BIT == 0,
        flag_bits_only(flags),
        leveled(before, a0, slots, levels),
        slots.contains(table_index(addr, 39) as int),
        slots.contains(table_index(qa, 39) as int),
        mapped_along(before, after, addr, parent_flags(flags)),
        fresh_tables(before, after, addr, a0, a1),
        forall|g: u64| a0.in_use(g) ==> #[trigger] a1.in_use(g),
        after.path_present(addr),
        after.l1_entry(addr) == (if before.tables_exist(addr) && before.l1_entry(addr) != 0 {
            entry_addr(before.l1_entry(addr)) | flags
        } else {
            0
        }),
    ensures
        before.walk(qa) is Err ==> after.walk(qa) is Err,
        before.walk(qa) is Ok ==> after.walk(qa) is Ok && entry_addr(after.l1_entry(qa)) == entry_addr(
            before.l1_entry(qa),
        ) && (after.l1_entry(qa) == before.l1_entry(qa) || after.l1_entry(qa) == (entry_addr(
            before.l1_entry(qa),
        ) | flags)),
{
    let p = parent_flags(flags);
    lemma_zero_entry();
    lemma_leveled_path(before, a0, slots, levels, addr);
    lemma_leveled_path(before, a0, slots, levels, qa);
    let i4 = table_index(addr, 39) as int;
    let i3 = table_index(addr, 30) as int;
    let i2 = table_index(addr, 21) as int;
    let i1 = table_index(addr, 12) as int;
    let j4 = table_index(qa, 39) as int;
    let j3 = table_index(qa, 30) as int;
    let j2 = table_index(qa, 21) as int;
    let j1 = table_index(qa, 12) as int;
    let e4 = before.root()[i4];
    let e3 = if e4 == 0 { 0u64 } else { before.l3_entry(addr) };
    let e2 = if e3 == 0 { 0u64 } else { before.l2_entry(addr) };
    let f3 = entry_frame(after.root()[i4]);
    let f2 = entry_frame(after.l3_entry(addr));
    let f1 = entry_frame(after.l2_entry(addr));
    if e4 != 0 {
        assert(levels[f3] == 3);
    }
    if e3 != 0 {
        assert(levels[f2] == 2);
    }
    if e2 != 0 {
        assert(levels[f1] == 1);
    }
    // The way to `qa` in `before`.
    let r4 = before.root()[j4];
    let r4n = after.root()[j4];
    if j4 == i4 {
        if e4 != 0 {
            assert(r4n == widened_entry(r4, p));
        }
    } else {
        assert(r4n == r4);
    }
    if r4 != 0 {
        lemma_reflagged_entry(r4, r4n, p, flags);
        let t3 = entry_frame(r4);
        assert(entry_frame(r4n) == t3);
        before.lemma_table(t3);
        assert(levels[t3] == 3);
        let r3 = before.table(t3)[j3];
        let r3n = after.table(t3)[j3];
        assert(after.l3_entry(qa) == r3n);
        assert(before.l3_entry(qa) == r3);
        if t3 == f3 && j3 == i3 {
            assert(e4 != 0);
            assert(r3 == e3);
        } else {
            assert(r3n == r3);
        }
        if r3 != 0 {
            lemma_reflagged_entry(r3, r3n, p, flags);
            let t2 = entry_frame(r3);
            assert(entry_frame(r3n) == t2);
            before.lemma_table(t2);
            assert(levels[t2] == 2);
            let r2 = before.table(t2)[j2];
            let r2n = after.table(t2)[j2];
            assert(after.l2_entry(qa) == r2n);
            assert(before.l2_entry(qa) == r2);
            if t2 == f2 && j2 == i2 {
                assert(e3 != 0);
                assert(r2 == e2);
            } else {
                assert(r2n == r2);
            }
            if r2 != 0 {
                lemma_reflagged_entry(r2, r2n, p, flags);
                let t1 = entry_frame(r2);
                assert(entry_frame(r2n) == t1);
                before.lemma_table(t1);
                assert(levels[t1] == 1);
                let r1 = before.table(t1)[j1];
                let r1n = after.table(t1)[j1];
                assert(after.l1_entry(qa) == r1n);
                assert(before.l1_entry(qa) == r1);
                if t1 == f1 && j1 == i1 {
                    assert(e2 != 0);
                    assert(before.tables_exist(addr));
                    assert(r1 == before.l1_entry(addr));
                    assert(r1n == after.l1_entry(addr));
                    if r1 != 0 {
                        lemma_physical_entry_addr(r1);
                        lemma_entry_addr_with_flags(entry_addr(r1), flags);
                        lemma_present_nonzero(r1n);
                    }
                } else {
                    assert(r1n == r1);
                }
            } else if t2 == f2 && j2 == i2 {
                // The missing level 1 table on the way to `addr` is made empty.
                assert(!before.tables_exist(addr));
                assert(r2n == after.l2_entry(addr));
                assert(after.l1_entry(qa) == after.table(f1)[j1]);
                if j1 != i1 {
                    assert(after.table(f1)[j1] == 0);
                } else {
                    assert(after.l1_entry(qa) == after.l1_entry(addr));
                }
            }
        } else if t3 == f3 && j3 == i3 {
            // The missing tables below the level 3 one on the way to `addr` are made empty.
            assert(!before.tables_exist(addr));
            assert(r3n == after.l3_entry(addr));
            assert(after.l2_entry(qa) == after.table(f2)[j2]);
            if j2 != i2 {
                assert(after.table(f2)[j2] == 0);
            } else {
                assert(after.l2_entry(qa) == after.l2_entry(addr));
                assert(after.l1_entry(qa) == after.table(f1)[j1]);
                if j1 != i1 {
                    assert(after.table(f1)[j1] == 0);
                } else {
                    assert(after.l1_entry(qa) == after.l1_entry(addr));
                }
            }
        }
    } else if j4 == i4 {
        // All the tables on the way to `addr` are new and empty.
        assert(e4 == 0);
        assert(!before.tables_exist(addr));
        assert(after.l3_entry(qa) == after.table(f3)[j3]);
        if j3 != i3 {
            assert(after.table(f3)[j3] == 0);
        } else {
            assert(after.l3_entry(qa) == after.l3_entry(addr));
            assert(after.l2_entry(qa) == after.table(f2)[j2]);
            if j2 != i2 {
                assert(after.table(f2)[j2] == 0);
            } else {
                assert(after.l2_entry(qa) == after.l2_entry(addr));
                assert(after.l1_entry(qa) == after.table(f1)[j1]);
                if j1 != i1 {
                    assert(after.table(f1)[j1] == 0);
                } else {
                    assert(after.l1_entry(qa) == after.l1_entry(addr));
                }
            }
        }
    }
}

/// In a hierarchy, mapping a page at `addr` leaves the level 1 entry of every other mapped
/// page under it as it was.
pub(crate) proof fn lemma_leveled_keeps_leaf<A: FrameAllocator>(
    before: Level4PageTable,
    after: Level4PageTable,
    addr: u64,
    flags: u64,
    a0: A,
    a1: A,
    slots: Set<int>,
    levels: Map<u64, int>,
    q: u64,
)
    requires
        before.wf(),
        flags & PRESENT_BIT == PRESENT_BIT,
        flags & HUGE_PAGE_BIT == 0,
        flag_bits_only(flags),
        leveled(before, a0, slots, levels),
        slots.contains(table_index(addr, 39) as int),
        slots.contains(table_index((q * 4096) as u64, 39) as int),
        mapped_along(before, after, addr, parent_flags(flags)),
        fresh_tables(before, after, addr, a0, a1),
        forall|g: u64| a0.in_use(g) ==> #[trigger] a1.in_use(g),
        before.tables_exist(addr) ==> before.l1_entry(addr) == 0,
        before.walk((q * 4096) as u64) is Ok,
    ensures
        after.l1_entry((q * 4096) as u64) == before.l1_entry((q * 4096) as u64),
        after.walk((q * 4096) as u64) == before.walk((q * 4096) as u64),
{
    let qa = (q * 4096) as u64;
    lemma_leveled_path(before, a0, slots, levels, addr);
    lemma_leveled_path(before, a0, slots, levels, qa);
    law_mapping_keeps_other_pages(before, after, addr, flags, a0, a1, q);
    let i4 = table_index(addr, 39) as int;
    let e4 = before.root()[i4];
    let e3 = if e4 == 0 { 0u64 } else { before.l3_entry(addr) };
    let e2 = if e3 == 0 { 0u64 } else { before.l2_entry(addr) };
    let f3 = entry_frame(after.root()[i4]);
    let f2 = entry_frame(after.l3_entry(addr));
    let f1 = entry_frame(after.l2_entry(addr));
    let t1 = entry_frame(before.l2_entry(qa));
    let i1 = table_index(qa, 12) as int;
    lemma_present_nonzero(before.root()[table_index(qa, 39) as int]);
    lemma_present_nonzero(before.l3_entry(qa));
    lemma_present_nonzero(before.l2_entry(qa));
    assert(before.tables_exist(qa));
    assert(a0.in_use(t1));
    assert(levels[t1] == 1);
    if e4 != 0 {
        assert(levels[f3] == 3);
    }
    if e3 != 0 {
        assert(levels[f2] == 2);
    }
    assert(t1 != f3 && t1 != f2);
    if t1 == f1 {
        assert(e2 != 0);
        if i1 == table_index(addr, 12) as int {
            assert(before.table(t1)[i1] == before.l1_entry(addr));
        }
    }
    assert(after.l1_entry(qa) == after.table(t1)[i1]);
}

/// The way to every page of `pages` is present in `pt`, through tables in different frames.
pub open spec fn ways_present(pt: Level4PageTable, pages: PageRange) -> bool {
    forall|q: int|
        pages.start@ <= q < pages.end@ ==> pt.path_distinct(#[trigger] ((q * 4096) as u64)) && pt.path_present(
            (q * 4096) as u64,
        )
}

/// Every page of `pages` keeps in `after` the frame it had in `before`, and each mapped one
/// has exactly `flags`.
pub open spec fn flags_set(before: Level4PageTable, after: Level4PageTable, pages: PageRange, flags: u64) -> bool {
    forall|q: int|
        pages.start@ <= q < pages.end@ ==> after.spec_translate_page(q as u64) == before.spec_translate_page(
            q as u64,
        ) && #[trigger] after.l1_entry((q * 4096) as u64) == (if before.l1_entry((q * 4096) as u64) == 0 {
            0
        } else {
            entry_addr(before.l1_entry((q * 4096) as u64)) | flags
        })
}

impl Level4PageTable {
    /// The level 3 entry on the way to `addr`, given the level 4 one.
    pub open spec fn l3_entry(&self, addr: u64) -> u64 {
        self.table(entry_frame(self.root()[table_index(addr, 39) as int]))[table_index(addr, 30) as int]
    }

    pub open spec fn l2_entry(&self, addr: u64) -> u64 {
        self.table(entry_frame(self.l3_entry(addr)))[table_index(addr, 21) as int]
    }

    pub open spec fn l1_entry(&self, addr: u64) -> u64 {
        self.table(entry_frame(self.l2_entry(addr)))[table_index(addr, 12) as int]
    }

    /// The level 1 entry that maps `addr`, or why there is none: a level above it is not
    /// present or maps a huge page, or the entry is unused.
    pub open spec fn walk(&self, addr: u64) -> Result<u64, TranslationError> {
        let e4 = self.root()[table_index(addr, 39) as int];
        let e3 = self.l3_entry(addr);
        let e2 = self.l2_entry(addr);
        let e1 = self.l1_entry(addr);
        if !entry_is_present(e4) {
            Err(TranslationError::NotMapped)
        } else if entry_is_huge(e4) {
            Err(TranslationError::HugePage)
        } else if !entry_is_present(e3) {
            Err(TranslationError::NotMapped)
        } else if entry_is_huge(e3) {
            Err(TranslationError::HugePage)
        } else if !entry_is_present(e2) {
            Err(TranslationError::NotMapped)
        } else if entry_is_huge(e2) {
            Err(TranslationError::HugePage)
        } else if e1 == 0 {
            Err(TranslationError::NotMapped)
        } else {
            Ok(e1)
        }
    }

    /// The frame that `page` is mapped to.
    pub open spec fn spec_translate_page(&self, page: u64) -> Result<u64, TranslationError> {
        match self.walk((page * 4096) as u64) {
            Ok(e1) => Ok(entry_frame(e1)),
            Err(e) => Err(e),
        }
    }

    /// Translates `page` to the frame it is mapped to.
    pub fn translate_page(&self, page: Page) -> (r: Result<Frame, TranslationError>)
        requires
            self.wf(),
            page@ * 4096 <= u64::MAX,
        ensures
            match self.spec_translate_page(page@) {
                Ok(f) => r matches Ok(frame) && frame@ == f,
                Err(e) => r == Err::<Frame, TranslationError>(e),
            },
    {
        let addr = page.base_addr();
        match self.walk_to_l1(addr) {
            Ok(e1) => {
                proof {
                    lemma_physical_entry_addr(e1@);
                }
                match Frame::from_base_addr(e1.addr()) {
                    Some(frame) => Ok(frame),
                    None => Err(TranslationError::InvalidFrameAddress(e1.addr())),
                }
            },
            Err(e) => Err(e),
        }
    }

    /// Translates `addr` to its frame, its offset in the frame and the flags of its mapping.
    pub fn translate_addr(&self, addr: VirtualAddress) -> (r: Result<AddressTranslation, TranslationError>)
        requires
            self.wf(),
        ensures
            match self.walk(addr@) {
                Ok(e1) => r matches Ok(t) && t.frame@ == entry_frame(e1) && t.offset == addr@ % 4096
                    && t.flags@ == e1 & !ADDRESS_MASK,
                Err(e) => r == Err::<AddressTranslation, TranslationError>(e),
            },
    {
        match self.walk_to_l1(addr) {
            Ok(e1) => {
                proof {
                    lemma_physical_entry_addr(e1@);
                }
                match Frame::from_base_addr(e1.addr()) {
                    Some(frame) => Ok(AddressTranslation { frame, offset: addr.page_offset(), flags: e1.flags() }),
                    None => Err(TranslationError::InvalidFrameAddress(e1.addr())),
                }
            },
            Err(e) => Err(e),
        }
    }

    /// The level 1 entry that maps `addr`.
    fn walk_to_l1(&self, addr: VirtualAddress) -> (r: Result<PageTableEntry, TranslationError>)
        requires
            self.wf(),
        ensures
            match self.walk(addr@) {
                Ok(e1) => r matches Ok(e) && e@ == e1 && physical_entry(e1),
                Err(e) => r == Err::<PageTableEntry, TranslationError>(e),
            },
    {
        let e4 = self.inner.entry(addr.l4_index());
        let f3 = match e4.frame() {
            Ok(f) => f,
            Err(e) => return Err(TranslationError::from_entry_frame_error(e)),
        };
        let e3 = self.table_entry(f3.number(), addr.l3_index());
        proof {
            self.lemma_table(f3@);
        }
        let f2 = match e3.frame() {
            Ok(f) => f,
            Err(e) => return Err(TranslationError::from_entry_frame_error(e)),
        };
        let e2 = self.table_entry(f2.number(), addr.l2_index());
        proof {
            self.lemma_table(f2@);
        }
        let f1 = match e2.frame() {
            Ok(f) => f,
            Err(e) => return Err(TranslationError::from_entry_frame_error(e)),
        };
        let e1 = self.table_entry(f1.number(), addr.l1_index());
        proof {
            self.lemma_table(f1@);
        }
        if e1.is_unused() {
            return Err(TranslationError::NotMapped);
        }
        Ok(e1)
    }
}


impl Level4PageTable {
    /// The tables that the way to `addr` passes through, where it goes on through them, are
    /// held in different frames.
    pub open spec fn path_distinct(&self, addr: u64) -> bool {
        let e4 = self.root()[table_index(addr, 39) as int];
        let e3 = self.l3_entry(addr);
        let e2 = self.l2_entry(addr);
        &&& (leads_on(e4) && leads_on(e3)) ==> entry_frame(e4) != entry_frame(e3)
        &&& (leads_on(e4) && leads_on(e3) && leads_on(e2)) ==> (entry_frame(e4) != entry_frame(e2)
            && entry_frame(e3) != entry_frame(e2))
    }

    /// Whether the way to `addr` reaches an entry that maps a huge page.
    pub open spec fn reaches_huge_page(&self, addr: u64) -> bool {
        let e4 = self.root()[table_index(addr, 39) as int];
        let e3 = self.l3_entry(addr);
        let e2 = self.l2_entry(addr);
        ||| (e4 != 0 && entry_is_huge(e4))
        ||| (leads_on(e4) && e3 != 0 && entry_is_huge(e3))
        ||| (leads_on(e4) && leads_on(e3) && e2 != 0 && entry_is_huge(e2))
    }

    /// Whether every entry on the way to `addr` is present and leads on to a table.
    pub open spec fn path_present(&self, addr: u64) -> bool {
        let e4 = self.root()[table_index(addr, 39) as int];
        let e3 = self.l3_entry(addr);
        let e2 = self.l2_entry(addr);
        &&& entry_is_present(e4) && !entry_is_huge(e4)
        &&& entry_is_present(e3) && !entry_is_huge(e3)
        &&& entry_is_present(e2) && !entry_is_huge(e2)
    }

    /// Whether every table on the way to `addr` exists.
    pub open spec fn tables_exist(&self, addr: u64) -> bool {
        leads_on(self.root()[table_index(addr, 39) as int]) && leads_on(self.l3_entry(addr))
            && leads_on(self.l2_entry(addr))
    }

    /// Maps `page` to `frame` with `flags`, making the tables on the way with frames from
    /// `allocator` where they are missing, and giving the entries on the way the present,
    /// writable and user accessible bits of `flags`. A page already mapped, or lying under a
    /// huge page, is refused whatever the tables hold; `frame` has to be a physical frame only
    /// where the mapping gets as far as the level 1 entry. A frame that `allocator` hands out
    /// for a missing table is refused, as an allocation failure, when it lies beyond physical
    /// memory or already holds a table on the way.
    pub fn map_to<A: FrameAllocator>(
        &mut self,
        page: Page,
        frame: Frame,
        flags: PageTableFlags,
        allocator: &mut A,
    ) -> (r: Result<FlushMapping, MappingError>)
        requires
            old(self).wf(),
            page@ * 4096 <= u64::MAX,
            flags@ & PRESENT_BIT == PRESENT_BIT,
            flags@ & HUGE_PAGE_BIT == 0,
            flag_bits_only(flags@),
            frame@ * 4096 < 0x0000_8000_0000_0000 || old(self).reaches_huge_page((page@ * 4096) as u64) || (
            old(self).tables_exist((page@ * 4096) as u64) && old(self).l1_entry((page@ * 4096) as u64) != 0)
                || (!old(self).tables_exist((page@ * 4096) as u64) && old(allocator).exhausted()),
            old(allocator).inv(),
        ensures
            final(self).wf(),
            final(allocator).inv(),
            r matches Ok(m) ==> m.page_spec() == page,
            old(self).path_distinct((page@ * 4096) as u64) && r is Ok ==> final(self).spec_translate_page(
                page@,
            ) == Ok::<u64, TranslationError>(frame@),
            old(self).reaches_huge_page((page@ * 4096) as u64) ==> r == Err::<FlushMapping, MappingError>(
                MappingError::MappedToHugePage,
            ),
            old(self).tables_exist((page@ * 4096) as u64) && old(self).l1_entry((page@ * 4096) as u64) != 0
                ==> r == Err::<FlushMapping, MappingError>(MappingError::PageAlreadyMapped { to: frame }),
            old(self).tables_exist((page@ * 4096) as u64) && old(self).l1_entry((page@ * 4096) as u64) == 0
                ==> r is Ok,
            old(self).path_distinct((page@ * 4096) as u64) && r is Ok ==> mapped_along(
                *old(self),
                *final(self),
                (page@ * 4096) as u64,
                parent_flags(flags@),
            ) && fresh_tables(*old(self), *final(self), (page@ * 4096) as u64, *old(allocator), *final(allocator)),
            old(self).path_distinct((page@ * 4096) as u64) && r is Ok ==> final(self).l1_entry(
                (page@ * 4096) as u64,
            ) == ((frame@ * 4096) as u64 | flags@),
            forall|g: u64| old(allocator).in_use(g) ==> #[trigger] final(allocator).in_use(g),
            !old(self).reaches_huge_page((page@ * 4096) as u64) && !old(self).tables_exist(
                (page@ * 4096) as u64,
            ) && old(allocator).exhausted() ==> r == Err::<FlushMapping, MappingError>(
                MappingError::FrameAllocationFailed,
            ),
            r == Err::<FlushMapping, MappingError>(MappingError::FrameAllocationFailed)
                ==> final(allocator).exhausted() || exists|f: u64|
                !old(allocator).in_use(f) && #[trigger] final(allocator).in_use(f) && (f >= 0x0000_0008_0000_0000
                    || f == entry_frame(old(self).root()[table_index((page@ * 4096) as u64, 39) as int])
                    || f == entry_frame(old(self).l3_entry((page@ * 4096) as u64))),
            old(self).path_distinct((page@ * 4096) as u64) && !old(self).reaches_huge_page(
                (page@ * 4096) as u64,
            ) && !(old(self).tables_exist((page@ * 4096) as u64) && old(self).l1_entry(
                (page@ * 4096) as u64,
            ) != 0) && path_in_use(*old(self), (page@ * 4096) as u64, *old(allocator))
                && holds_back_high_frames(*old(allocator)) && r is Err ==> r == Err::<
                FlushMapping,
                MappingError,
            >(MappingError::FrameAllocationFailed) && final(allocator).exhausted(),
            old(self).path_distinct((page@ * 4096) as u64) && r == Err::<FlushMapping, MappingError>(
                MappingError::FrameAllocationFailed,
            ) ==> final(self).spec_translate_page(page@) == Err::<u64, TranslationError>(
                TranslationError::NotMapped,
            ) && old(self).spec_translate_page(page@) == Err::<u64, TranslationError>(
                TranslationError::NotMapped,
            ),
            old(self).path_distinct((page@ * 4096) as u64) && old(self).path_present(
                (page@ * 4096) as u64,
            ) && r is Err ==> final(self).spec_translate_page(page@) == old(self).spec_translate_page(
                page@,
            ),
    {
        let ghost a0 = *allocator;
        let ghost addr = (page@ * 4096) as u64;
        let ghost old_self = *self;
        let ghost good = old_self.path_distinct(addr) && !old_self.reaches_huge_page(addr) && !(
        old_self.tables_exist(addr) && old_self.l1_entry(addr) != 0) && path_in_use(old_self, addr, a0)
            && holds_back_high_frames(a0);
        let parent = flags.intersection(
            PageTableFlags::present().union(PageTableFlags::writable()).union(
                PageTableFlags::user_accessible(),
            ),
        );
        proof {
            let fv = flags@;
            assert((fv & (PRESENT_BIT | WRITABLE_BIT | USER_ACCESSIBLE_BIT)) & (PRESENT_BIT
                | WRITABLE_BIT | USER_ACCESSIBLE_BIT) == fv & (PRESENT_BIT | WRITABLE_BIT
                | USER_ACCESSIBLE_BIT)) by (bit_vector);
            assert(fv & PRESENT_BIT == PRESENT_BIT ==> (fv & (PRESENT_BIT | WRITABLE_BIT
                | USER_ACCESSIBLE_BIT)) & PRESENT_BIT == PRESENT_BIT) by (bit_vector);
        }
        let i4 = page.l4_index();
        let i3 = page.l3_index();
        let i2 = page.l2_index();
        let i1 = page.l1_index();
        // Level 4.
        let e4 = self.inner.entry(i4);
        let (n4, res) = next_table(e4, parent, u64::MAX, u64::MAX, allocator);
        let ghost a4 = *allocator;
        self.inner.set_entry(i4, n4);
        let ghost s4a = *self;
        assert(forall|i: int| 0 <= i < 512 ==> physical_entry(#[trigger] self.inner@[i]));
        proof {
            if good && res is Err {
                if !allocator.exhausted() {
                    let f = choose|f: u64|
                        !a0.in_use(f) && #[trigger] allocator.in_use(f) && (f >= 0x0000_0008_0000_0000
                            || f == u64::MAX);
                    assert(a0.in_use(f));
                }
            }
        }
        proof {
            lemma_zero_entry();
            if res == Err::<(u64, bool), MappingError>(MappingError::FrameAllocationFailed) {
                assert(e4@ == 0);
                assert(self.root() =~= old_self.root());
                assert(forall|g: u64| #[trigger] self.table(g) == old_self.table(g));
                assert(self.walk(addr) == Err::<u64, TranslationError>(TranslationError::NotMapped));
                assert(old_self.walk(addr) == Err::<u64, TranslationError>(TranslationError::NotMapped));
            }
        }
        let (f3, new3) = match res {
            Ok(x) => x,
            Err(e) => return Err(e),
        };
        if new3 {
            self.clear_table(f3);
        }
        let ghost s4 = *self;
        proof {
            assert(e4@ == old_self.root()[i4 as int]);
            if !new3 {
                assert(leads_on(e4@));
                assert(f3 == entry_frame(e4@));
                assert(forall|g: u64| #[trigger] s4.table(g) == old_self.table(g));
            }
        }
        // Level 3.
        proof {
            self.lemma_table(f3);
        }
        let e3 = self.table_entry(f3, i3);
        proof {
            if new3 {
                assert(e3@ == 0);
            } else {
                assert(e3@ == old_self.l3_entry(addr));
            }
        }
        let (n3, res) = next_table(e3, parent, f3, f3, allocator);
        let ghost a3 = *allocator;
        self.set_table_entry(f3, i3, n3);
        let ghost s3a = *self;
        proof {
            if good && res is Err {
                assert(e3@ == 0 || (e3@ != 0 && entry_is_huge(e3@)));
                if e3@ != 0 {
                    assert(!new3);
                    assert(old_self.reaches_huge_page(addr));
                }
                if !allocator.exhausted() {
                    let f = choose|f: u64|
                        !a4.in_use(f) && #[trigger] allocator.in_use(f) && (f >= 0x0000_0008_0000_0000
                            || f == f3 || f == f3);
                    if f >= 0x0000_0008_0000_0000 {
                        assert(a0.in_use(f));
                    } else {
                        if !new3 {
                            assert(a0.in_use(f3));
                        }
                        assert(a4.in_use(f3));
                    }
                }
            }
        }
        proof {
            lemma_zero_entry();
            if old_self.path_distinct(addr) && res == Err::<(u64, bool), MappingError>(
                MappingError::FrameAllocationFailed,
            ) {
                assert(e3@ == 0);
                assert(self.root()[i4 as int] == n4@);
                assert(self.table(f3)[i3 as int] == 0);
                assert(self.l3_entry(addr) == 0);
                assert(self.walk(addr) == Err::<u64, TranslationError>(TranslationError::NotMapped));
                if !new3 {
                    assert(old_self.l3_entry(addr) == 0);
                }
                assert(old_self.walk(addr) == Err::<u64, TranslationError>(TranslationError::NotMapped));
            }
        }
        let (f2, new2) = match res {
            Ok(x) => x,
            Err(e) => return Err(e),
        };
        if new2 {
            self.clear_table(f2);
        }
        let ghost s3 = *self;
        proof {
            if new3 {
                assert(new2);
            }
            if !new2 {
                assert(leads_on(e3@));
                assert(f2 == entry_frame(e3@));
            }
            if old_self.path_distinct(addr) {
                assert(f2 != f3);
                assert(s3.table(f3)[i3 as int] == n3@);
                if !new3 && !new2 {
                    assert(s3.table(f2) == old_self.table(f2));
                }
            }
        }
        // Level 2.
        proof {
            self.lemma_table(f2);
        }
        let e2 = self.table_entry(f2, i2);
        proof {
            if old_self.path_distinct(addr) {
                if new2 {
                    assert(e2@ == 0);
                } else if !new3 {
                    assert(e2@ == old_self.l2_entry(addr));
                }
            }
        }
        let ghost a2 = *allocator;
        let (n2, res) = next_table(e2, parent, f3, f2, allocator);
        self.set_table_entry(f2, i2, n2);
        let ghost s2a = *self;
        proof {
            if good && res is Err {
                if e2@ != 0 {
                    assert(!new2 && !new3);
                    assert(old_self.reaches_huge_page(addr));
                }
                if !allocator.exhausted() {
                    let f = choose|f: u64|
                        !a2.in_use(f) && #[trigger] allocator.in_use(f) && (f >= 0x0000_0008_0000_0000
                            || f == f3 || f == f2);
                    if f >= 0x0000_0008_0000_0000 {
                        assert(a0.in_use(f));
                    } else if f == f3 {
                        if !new3 {
                            assert(a0.in_use(f3));
                        }
                        assert(a4.in_use(f3));
                    } else {
                        if !new2 {
                            assert(!new3);
                            assert(a0.in_use(f2));
                        }
                        assert(a3.in_use(f2));
                    }
                }
            }
        }
        proof {
            lemma_zero_entry();
            if old_self.path_distinct(addr) && res == Err::<(u64, bool), MappingError>(
                MappingError::FrameAllocationFailed,
            ) {
                assert(e2@ == 0);
                assert(self.root()[i4 as int] == n4@);
                assert(self.table(f3)[i3 as int] == n3@);
                assert(self.l3_entry(addr) == n3@);
                assert(self.table(f2)[i2 as int] == 0);
                assert(self.l2_entry(addr) == 0);
                assert(self.walk(addr) == Err::<u64, TranslationError>(TranslationError::NotMapped));
                if !new3 && !new2 {
                    assert(old_self.l2_entry(addr) == 0);
                }
                if !new3 && new2 {
                    assert(old_self.l3_entry(addr) == 0);
                }
                assert(old_self.walk(addr) == Err::<u64, TranslationError>(TranslationError::NotMapped));
            }
        }
        let (f1, new1) = match res {
            Ok(x) => x,
            Err(e) => return Err(e),
        };
        if new1 {
            self.clear_table(f1);
        }
        let ghost s2 = *self;
        proof {
            if old_self.path_distinct(addr) {
                if new2 {
                    assert(new1);
                }
                if !new1 {
                    assert(leads_on(e2@));
                    assert(f1 == entry_frame(e2@));
                }
                assert(f1 != f3 && f1 != f2);
            }
        }
        // Level 1.
        let e1 = self.table_entry(f1, i1);
        proof {
            if old_self.path_distinct(addr) && !new3 && !new2 && !new1 {
                assert(self.table(f1) == old_self.table(f1));
                assert(e1@ == old_self.l1_entry(addr));
            }
        }
        if !e1.is_unused() {
            return Err(MappingError::PageAlreadyMapped { to: frame });
        }
        let mut leaf = e1;
        proof {
            assert(!old_self.reaches_huge_page(addr));
            assert(!(old_self.tables_exist(addr) && old_self.l1_entry(addr) != 0));
            assert(!(!old_self.tables_exist(addr) && a0.exhausted()));
            lemma_frame_base(frame@);
            lemma_entry_addr_with_flags((frame@ * 4096) as u64, flags@);
        }
        leaf.set_frame(frame, flags);
        self.set_table_entry(f1, i1, leaf);
        proof {
            if old_self.path_distinct(addr) {
                assert(self.root()[i4 as int] == n4@);
                assert(self.table(f3)[i3 as int] == n3@);
                assert(self.table(f2)[i2 as int] == n2@);
                assert(self.table(f1)[i1 as int] == leaf@);
                assert(entry_frame(leaf@) == frame@);
                assert(entry_is_present(n4@) && !entry_is_huge(n4@) && entry_frame(n4@) == f3);
                assert(self.l3_entry(addr) == n3@);
                assert(self.l2_entry(addr) == n2@);
                assert(self.l1_entry(addr) == leaf@);
                assert(leaf@ & PRESENT_BIT == PRESENT_BIT);
                lemma_present_nonzero(leaf@);
                assert(self.walk(addr) == Ok::<u64, TranslationError>(leaf@));
                let st = *self;
                let pv = parent_flags(flags@);
                assert(parent@ == pv);
                assert(new3 <==> e4@ == 0);
                assert(new2 <==> e3@ == 0);
                assert(new1 <==> e2@ == 0);
                assert(st.root() =~= old_self.root().update(i4 as int, n4@));
                assert forall|g: u64| g != f3 && g != f2 && g != f1 implies #[trigger] st.table(g)
                    == old_self.table(g) by {
                    assert(s4a.table(g) == old_self.table(g));
                    assert(s4.table(g) == s4a.table(g));
                    assert(s3a.table(g) == s4.table(g));
                    assert(s3.table(g) == s3a.table(g));
                    assert(s2a.table(g) == s3.table(g));
                    assert(s2.table(g) == s2a.table(g));
                }
                assert(s4a.table(f3) == old_self.table(f3));
                assert(st.table(f3) == s3a.table(f3));
                assert forall|j: int| 0 <= j < 512 && j != i3 implies #[trigger] st.table(f3)[j]
                    == if e4@ == 0 { 0u64 } else { old_self.table(f3)[j] } by {
                    assert(s3a.table(f3)[j] == s4.table(f3)[j]);
                }
                assert(s4.table(f2) == old_self.table(f2));
                assert(s3a.table(f2) == s4.table(f2));
                assert(st.table(f2) == s2a.table(f2));
                assert forall|j: int| 0 <= j < 512 && j != i2 implies #[trigger] st.table(f2)[j]
                    == if e3@ == 0 { 0u64 } else { old_self.table(f2)[j] } by {
                    assert(s2a.table(f2)[j] == s3.table(f2)[j]);
                }
                assert(s2a.table(f1) == old_self.table(f1)) by {
                    assert(s4a.table(f1) == old_self.table(f1));
                    assert(s4.table(f1) == s4a.table(f1));
                    assert(s3a.table(f1) == s4.table(f1));
                    assert(s3.table(f1) == s3a.table(f1));
                }
                assert forall|j: int| 0 <= j < 512 && j != i1 implies #[trigger] st.table(f1)[j]
                    == if e2@ == 0 { 0u64 } else { old_self.table(f1)[j] } by {
                    assert(st.table(f1)[j] == s2.table(f1)[j]);
                }
                assert(mapped_along(old_self, st, addr, pv));
                assert(fresh_tables(old_self, st, addr, a0, *allocator));
            }
        }
        Ok(FlushMapping::new(page))
    }

    /// Sets the flags of the mapping of one page, as [`Level4PageTable::set_flags`] does for
    /// each page of its range; returns how many of the following pages a huge page that was
    /// met also covers.
    #[verifier::spinoff_prover]
    #[verifier::rlimit(40)]
    fn set_page_flags<A: FrameAllocator>(
        &mut self,
        page: Page,
        flags: PageTableFlags,
        parent: PageTableFlags,
        allocator: &mut A,
    ) -> (r: Result<usize, MappingError>)
        requires
            old(self).wf(),
            page@ * 4096 <= u64::MAX,
            flags@ & PRESENT_BIT == PRESENT_BIT,
            flags@ & HUGE_PAGE_BIT == 0,
            flag_bits_only(flags@),
            parent@ == parent_flags(flags@),
            parent@ & PRESENT_BIT == PRESENT_BIT,
            old(allocator).inv(),
        ensures
            final(self).wf(),
            final(allocator).inv(),
            r matches Err(e) ==> e == MappingError::FrameAllocationFailed || e
                == MappingError::MappedToHugePage,
            r matches Ok(skip) ==> skip == 0 || skip == PAGES_PER_L2_HUGE_PAGE || skip
                == PAGES_PER_L3_HUGE_PAGE,
            old(self).path_distinct((page@ * 4096) as u64) && old(self).path_present(
                (page@ * 4096) as u64,
            ) ==> r == Ok::<
                usize,
                MappingError,
            >(0) && final(self).l1_entry((page@ * 4096) as u64) == (if old(self).l1_entry(
                (page@ * 4096) as u64,
            ) == 0 {
                0
            } else {
                entry_addr(old(self).l1_entry((page@ * 4096) as u64)) | flags@
            }) && final(self).spec_translate_page(page@) == old(self).spec_translate_page(page@),
            old(self).path_distinct((page@ * 4096) as u64) && old(self).path_present(
                (page@ * 4096) as u64,
            ) ==> reflagged(*old(self), *final(self), parent@, flags@),
            forall|g: u64| old(allocator).in_use(g) ==> #[trigger] final(allocator).in_use(g),
            old(self).path_distinct((page@ * 4096) as u64) && !old(self).reaches_huge_page(
                (page@ * 4096) as u64,
            ) && r is Ok ==> r == Ok::<usize, MappingError>(0) && mapped_along(
                *old(self),
                *final(self),
                (page@ * 4096) as u64,
                parent@,
            ) && fresh_tables(*old(self), *final(self), (page@ * 4096) as u64, *old(allocator), *final(allocator))
                && final(self).path_present((page@ * 4096) as u64),
            old(self).path_distinct((page@ * 4096) as u64) && !old(self).reaches_huge_page(
                (page@ * 4096) as u64,
            ) && r is Ok ==> final(self).l1_entry((page@ * 4096) as u64) == (if old(self).tables_exist(
                (page@ * 4096) as u64,
            ) && old(self).l1_entry((page@ * 4096) as u64) != 0 {
                entry_addr(old(self).l1_entry((page@ * 4096) as u64)) | flags@
            } else {
                0
            }),
            old(self).path_distinct((page@ * 4096) as u64) && !old(self).reaches_huge_page(
                (page@ * 4096) as u64,
            ) && path_in_use(*old(self), (page@ * 4096) as u64, *old(allocator)) && holds_back_high_frames(
                *old(allocator),
            ) && r is Err ==> r == Err::<usize, MappingError>(MappingError::FrameAllocationFailed)
                && final(allocator).exhausted(),
    {
        let ghost a0 = *allocator;
        let ghost addr = (page@ * 4096) as u64;
        let ghost old_self = *self;
        let ghost exact = old_self.path_distinct(addr) && old_self.path_present(addr);
        let ghost good = old_self.path_distinct(addr) && !old_self.reaches_huge_page(addr);
        let ghost held = good && path_in_use(old_self, addr, a0) && holds_back_high_frames(a0);
        proof {
            if exact {
                lemma_present_nonzero(old_self.root()[table_index(addr, 39) as int]);
                lemma_present_nonzero(old_self.l3_entry(addr));
                lemma_present_nonzero(old_self.l2_entry(addr));
            }
        }
        let i4 = page.l4_index();
        let i3 = page.l3_index();
        let i2 = page.l2_index();
        let i1 = page.l1_index();
        let huge_flags = flags.union(PageTableFlags::huge_page());
        proof {
            let fv = flags@;
            let pv = parent@;
            assert((fv | HUGE_PAGE_BIT) & ADDRESS_MASK == 0) by (bit_vector)
                requires
                    fv & ADDRESS_MASK == 0,
            ;
            assert(pv == pv & (PRESENT_BIT | WRITABLE_BIT | USER_ACCESSIBLE_BIT)) by (bit_vector)
                requires
                    pv == fv & (PRESENT_BIT | WRITABLE_BIT | USER_ACCESSIBLE_BIT),
            ;
        }
        // Level 4.
        let e4 = self.inner.entry(i4);
        let (n4, res) = next_table(e4, parent, u64::MAX, u64::MAX, allocator);
        let ghost a4 = *allocator;
        self.inner.set_entry(i4, n4);
        let ghost s4a = *self;
        assert(forall|i: int| 0 <= i < 512 ==> physical_entry(#[trigger] self.inner@[i]));
        proof {
            if held && res is Err {
                if !allocator.exhausted() {
                    let f = choose|f: u64|
                        !a0.in_use(f) && #[trigger] allocator.in_use(f) && (f >= 0x0000_0008_0000_0000
                            || f == u64::MAX);
                    assert(a0.in_use(f));
                }
            }
        }
        let (f3, new3) = match res {
            Ok(x) => x,
            Err(e) => return Err(e),
        };
        if new3 {
            self.clear_table(f3);
        }
        let ghost s4 = *self;
        proof {
            assert(e4@ == old_self.root()[i4 as int]);
            if exact {
                assert(!new3);
                assert(f3 == entry_frame(e4@));
                assert(forall|g: u64| #[trigger] s4.table(g) == old_self.table(g));
            }
        }
        // Level 3.
        proof {
            self.lemma_table(f3);
        }
        let mut e3 = self.table_entry(f3, i3);
        proof {
            lemma_zero_entry();
            if good && !new3 {
                assert(e3@ == old_self.l3_entry(addr));
                assert(leads_on(old_self.root()[i4 as int]));
            }
        }
        if e3.is_huge_page() {
            proof {
                lemma_physical_entry_addr(e3@);
                lemma_entry_addr_with_flags(entry_addr(e3@), huge_flags@);
            }
            e3.set_flags(huge_flags);
            self.set_table_entry(f3, i3, e3);
            return Ok(PAGES_PER_L3_HUGE_PAGE);
        }
        proof {
            if exact {
                assert(e3@ == old_self.l3_entry(addr));
            }
        }
        proof {
            if !new3 {
                assert(e3@ == old_self.l3_entry(addr));
            }
        }
        let (n3, res) = next_table(e3, parent, f3, f3, allocator);
        let ghost a3 = *allocator;
        self.set_table_entry(f3, i3, n3);
        let ghost s3a = *self;
        proof {
            if held && res is Err {
                if e3@ != 0 {
                    assert(!new3);
                    assert(old_self.reaches_huge_page(addr));
                }
                if !allocator.exhausted() {
                    let f = choose|f: u64|
                        !a4.in_use(f) && #[trigger] allocator.in_use(f) && (f >= 0x0000_0008_0000_0000
                            || f == f3 || f == f3);
                    if f >= 0x0000_0008_0000_0000 {
                        assert(a0.in_use(f));
                    } else {
                        if !new3 {
                            assert(a0.in_use(f3));
                        }
                        assert(a4.in_use(f3));
                    }
                }
            }
        }
        let (f2, new2) = match res {
            Ok(x) => x,
            Err(e) => return Err(e),
        };
        if new2 {
            self.clear_table(f2);
        }
        let ghost s3 = *self;
        proof {
            if exact {
                assert(!new2);
                assert(f2 == entry_frame(e3@));
                assert(f2 != f3);
                assert(s3.table(f2) == old_self.table(f2));
            }
        }
        // Level 2.
        proof {
            self.lemma_table(f2);
        }
        let mut e2 = self.table_entry(f2, i2);
        proof {
            lemma_zero_entry();
            if good && !new2 {
                assert(!new3);
                assert(f2 != f3);
                assert(e2@ == old_self.l2_entry(addr));
                assert(leads_on(old_self.l3_entry(addr)));
            }
        }
        if e2.is_huge_page() {
            proof {
                lemma_physical_entry_addr(e2@);
                lemma_entry_addr_with_flags(entry_addr(e2@), huge_flags@);
            }
            e2.set_flags(huge_flags);
            self.set_table_entry(f2, i2, e2);
            return Ok(PAGES_PER_L2_HUGE_PAGE);
        }
        proof {
            if exact {
                assert(e2@ == old_self.l2_entry(addr));
            }
        }
        proof {
            if good {
                if new2 {
                    assert(e2@ == 0);
                } else if !new3 {
                    assert(f2 != f3);
                    assert(e2@ == old_self.l2_entry(addr));
                }
            }
        }
        let (n2, res) = next_table(e2, parent, f3, f2, allocator);
        let ghost a2 = *allocator;
        self.set_table_entry(f2, i2, n2);
        let ghost s2a = *self;
        proof {
            if held && res is Err {
                if e2@ != 0 {
                    assert(!new2 && !new3);
                    assert(old_self.reaches_huge_page(addr));
                }
                if !allocator.exhausted() {
                    let f = choose|f: u64|
                        !a3.in_use(f) && #[trigger] allocator.in_use(f) && (f >= 0x0000_0008_0000_0000
                            || f == f3 || f == f2);
                    if f >= 0x0000_0008_0000_0000 {
                        assert(a0.in_use(f));
                    } else if f == f3 {
                        if !new3 {
                            assert(a0.in_use(f3));
                        }
                        assert(a4.in_use(f3));
                    } else {
                        if !new2 {
                            assert(!new3);
                            assert(a0.in_use(f2));
                        }
                        assert(a3.in_use(f2));
                    }
                }
            }
        }
        let (f1, new1) = match res {
            Ok(x) => x,
            Err(e) => return Err(e),
        };
        if new1 {
            self.clear_table(f1);
        }
        proof {
            if exact {
                assert(!new1);
                assert(f1 == entry_frame(e2@));
                assert(f1 != f3 && f1 != f2);
            }
        }
        // Level 1.
        proof {
            self.lemma_table(f1);
        }
        let mut e1 = self.table_entry(f1, i1);
        proof {
            if exact {
                assert(self.table(f1) == old_self.table(f1));
                assert(e1@ == old_self.l1_entry(addr));
            }
        }
        let ghost s1 = *self;
        let ghost e1_old = e1@;
        if !e1.is_unused() {
            proof {
                lemma_physical_entry_addr(e1@);
                lemma_entry_addr_with_flags(entry_addr(e1@), flags@);
            }
            e1.set_flags(flags);
            self.set_table_entry(f1, i1, e1);
        }
        proof {
            if exact {
                assert(self.root()[i4 as int] == n4@);
                assert(self.table(f3)[i3 as int] == n3@);
                assert(self.table(f2)[i2 as int] == n2@);
                assert(entry_is_present(n4@) && !entry_is_huge(n4@) && entry_frame(n4@) == f3);
                assert(self.l3_entry(addr) == n3@);
                assert(self.l2_entry(addr) == n2@);
                assert(self.l1_entry(addr) == e1@);
                if old_self.l1_entry(addr) != 0 {
                    assert(entry_frame(e1@) == entry_frame(old_self.l1_entry(addr)));
                    assert(e1@ & PRESENT_BIT == PRESENT_BIT);
                    lemma_present_nonzero(e1@);
                }
                assert(entry_is_present(old_self.root()[i4 as int]));
                assert(!entry_is_huge(old_self.root()[i4 as int]));
                let pv = parent@;
                let fv = flags@;
                assert(s4 == s4a);
                assert(s3 == s3a);
                assert forall|k: int| 0 <= k < 512 implies entry_reflagged(
                    #[trigger] old_self.root()[k],
                    self.root()[k],
                    pv,
                    fv,
                ) by {
                    assert(self.root() == s4a.root());
                }
                assert forall|g: u64, k: int| 0 <= k < 512 implies entry_reflagged(
                    #[trigger] old_self.table(g)[k],
                    self.table(g)[k],
                    pv,
                    fv,
                ) by {
                    assert(s4a.table(g) == old_self.table(g));
                    if g == f3 {
                        assert(s2a.table(g) == s3a.table(g));
                        assert(self.table(g) == s2a.table(g));
                    } else if g == f2 {
                        assert(s3a.table(g) == s4a.table(g));
                        assert(self.table(g) == s2a.table(g));
                    } else if g == f1 {
                        assert(s3a.table(g) == s4a.table(g));
                        assert(s2a.table(g) == s3a.table(g));
                        assert(s1.table(g) == s2a.table(g));
                        if k == i1 && e1_old != 0 {
                            assert(self.table(g)[k] == e1@);
                        }
                    } else {
                        assert(s3a.table(g) == s4a.table(g));
                        assert(s2a.table(g) == s3a.table(g));
                        assert(self.table(g) == s2a.table(g));
                    }
                }
            }
        }
        Ok(0)
    }

    /// Gives each mapped page of `pages` the flags `flags`, keeping its frame, and the entries
    /// on the way the present, writable and user accessible bits of `flags`, making the tables
    /// on the way with frames from `allocator` where they are missing. A huge page met on the
    /// way gets `flags` as a whole, and the pages it covers after the one that met it are
    /// passed over. Where the tables under the range form a hierarchy that `allocator` holds
    /// ([`leveled`]), this fails only when the allocator runs out; on success every page of
    /// the range that was mapped keeps its frame with exactly `flags`, every other page stays
    /// unmapped, and the tables still form a hierarchy.
    pub fn set_flags<A: FrameAllocator>(
        &mut self,
        pages: PageRange,
        flags: PageTableFlags,
        allocator: &mut A,
    ) -> (r: Result<(), MappingError>)
        requires
            old(self).wf(),
            pages.end@ * 4096 <= u64::MAX,
            flags@ & PRESENT_BIT == PRESENT_BIT,
            flags@ & HUGE_PAGE_BIT == 0,
            flag_bits_only(flags@),
            old(allocator).inv(),
        ensures
            final(self).wf(),
            final(allocator).inv(),
            r matches Err(e) ==> e == MappingError::FrameAllocationFailed || e
                == MappingError::MappedToHugePage,
            ways_present(*old(self), pages) ==> r is Ok && flags_set(*old(self), *final(self), pages, flags@),
            hierarchy(*old(self), *old(allocator), slots_of(pages)) && holds_back_high_frames(*old(allocator))
                ==> (r matches Err(e) ==> e == MappingError::FrameAllocationFailed && final(allocator).exhausted())
                && (r is Ok ==> hierarchy(*final(self), *final(allocator), slots_of(pages)) && flags_given(
                *old(self),
                *final(self),
                pages,
                flags@,
            )),
    {
        let parent = flags.intersection(
            PageTableFlags::present().union(PageTableFlags::writable()).union(
                PageTableFlags::user_accessible(),
            ),
        );
        proof {
            let fv = flags@;
            assert(fv & PRESENT_BIT == PRESENT_BIT ==> (fv & (PRESENT_BIT | WRITABLE_BIT
                | USER_ACCESSIBLE_BIT)) & PRESENT_BIT == PRESENT_BIT) by (bit_vector);
        }
        let ghost old_self = *self;
        let ghost slots = slots_of(pages);
        let ghost laid = hierarchy(old_self, *allocator, slots) && holds_back_high_frames(*allocator);
        let ghost mut levels = choose|levels: Map<u64, int>| leveled(old_self, *allocator, slots, levels);
        let ghost all = forall|q: int|
            pages.start@ <= q < pages.end@ ==> old_self.path_distinct(#[trigger] ((q * 4096) as u64))
                && old_self.path_present((q * 4096) as u64);
        proof {
            if all {
                assert forall|q: int| pages.start@ <= q < pages.end@ implies #[trigger] page_kept(
                    old_self,
                    old_self,
                    q,
                ) by {
                    assert(old_self.path_distinct((q * 4096) as u64));
                }
            }
        }
        let mut iter = pages;
        while iter.start.number() < iter.end.number()
            invariant
                self.wf(),
                allocator.inv(),
                iter.end == pages.end,
                pages.end@ * 4096 <= u64::MAX,
                flags@ & PRESENT_BIT == PRESENT_BIT,
                flags@ & HUGE_PAGE_BIT == 0,
                flag_bits_only(flags@),
                parent@ == parent_flags(flags@),
                parent@ & PRESENT_BIT == PRESENT_BIT,
                old_self == *old(self),
                old_self.wf(),
                pages.start@ <= iter.start@,
                slots == slots_of(pages),
                laid == (hierarchy(old_self, *old(allocator), slots) && holds_back_high_frames(*old(allocator))),
                laid ==> leveled(*self, *allocator, slots, levels) && holds_back_high_frames(*allocator),
                laid ==> forall|q: int|
                    pages.start@ <= q < pages.end@ ==> #[trigger] reflag_kept(
                        old_self,
                        *self,
                        q,
                        flags@,
                        iter.start@ as int,
                    ),
                all == (forall|q: int|
                    pages.start@ <= q < pages.end@ ==> old_self.path_distinct(#[trigger] ((q * 4096) as u64))
                        && old_self.path_present((q * 4096) as u64)),
                all ==> pages.start@ <= iter.start@,
                all ==> forall|q: int| pages.start@ <= q < pages.end@ ==> #[trigger] page_kept(old_self, *self, q),
                all ==> forall|q: int|
                    pages.start@ <= q < iter.start@ && q < pages.end@ ==> #[trigger] self.l1_entry(
                        (q * 4096) as u64,
                    ) == (if old_self.l1_entry((q * 4096) as u64) == 0 {
                        0
                    } else {
                        entry_addr(old_self.l1_entry((q * 4096) as u64)) | flags@
                    }),
            decreases iter.end@ - iter.start@,
        {
            let page = match iter.next() {
                Some(page) => page,
                None => {
                    assert(false);
                    return Ok(());
                },
            };
            let ghost cur = *self;
            proof {
                if all {
                    assert(page_kept(old_self, cur, page@ as int));
                }
            }
            let ghost al0 = *allocator;
            let ghost paddr = (page@ * 4096) as u64;
            proof {
                if laid {
                    assert(pages.start@ <= page@ < pages.end@ && table_index(paddr, 39) as int == page_slot(
                        page@ as int,
                    ));
                    assert(slots.contains(table_index(paddr, 39) as int));
                    lemma_leveled_path(cur, al0, slots, levels, paddr);
                }
            }
            let skip = match self.set_page_flags(page, flags, parent, allocator) {
                Ok(skip) => skip,
                Err(e) => return Err(e),
            };
            proof {
                if laid {
                    let next = *self;
                    let k = page@ as int;
                    let k1 = k + 1;
                    assert forall|q: int| pages.start@ <= q < pages.end@ implies #[trigger] reflag_kept(
                        old_self,
                        next,
                        q,
                        flags@,
                        k1,
                    ) by {
                        let qa = page_addr(q);
                        assert(reflag_kept(old_self, cur, q, flags@, k));
                        assert(table_index(qa, 39) as int == page_slot(q));
                        assert(slots.contains(table_index(qa, 39) as int));
                        lemma_leveled_reflag_keeps(cur, next, paddr, flags@, al0, *allocator, slots, levels, qa);
                        if old_self.walk(qa) is Ok {
                            let o1 = old_self.l1_entry(qa);
                            old_self.lemma_table(entry_frame(old_self.l2_entry(qa)));
                            lemma_physical_entry_addr(o1);
                            lemma_entry_addr_with_flags(entry_addr(o1), flags@);
                            if q == k {
                                assert(qa == paddr);
                                lemma_present_nonzero(cur.root()[table_index(qa, 39) as int]);
                                lemma_present_nonzero(cur.l3_entry(qa));
                                lemma_present_nonzero(cur.l2_entry(qa));
                                assert(cur.tables_exist(paddr));
                            }
                        }
                    }
                    lemma_leveled_step(cur, *self, paddr, flags@, al0, *allocator, slots, levels);
                    levels = step_levels(cur, *self, paddr, levels);
                    assert forall|f: u64| f >= 0x0000_0008_0000_0000 implies #[trigger] allocator.in_use(f) by {
                        assert(al0.in_use(f));
                    }
                }
            }
            proof {
                if all {
                    let next = *self;
                    assert forall|q: int| pages.start@ <= q < pages.end@ implies #[trigger] page_kept(
                        old_self,
                        next,
                        q,
                    ) by {
                        assert(page_kept(old_self, cur, q));
                        lemma_reflagged_path(cur, next, parent@, flags@, (q * 4096) as u64);
                    }
                    assert forall|q: int| pages.start@ <= q < page@ + 1 && q < pages.end@ implies #[trigger] next.l1_entry(
                        (q * 4096) as u64,
                    ) == (if old_self.l1_entry((q * 4096) as u64) == 0 {
                        0
                    } else {
                        entry_addr(old_self.l1_entry((q * 4096) as u64)) | flags@
                    }) by {
                        assert(page_kept(old_self, cur, q));
                        lemma_reflagged_path(cur, next, parent@, flags@, (q * 4096) as u64);
                        if q < page@ {
                            assert(cur.l1_entry((q * 4096) as u64) == (if old_self.l1_entry((q * 4096) as u64) == 0 {
                                0
                            } else {
                                entry_addr(old_self.l1_entry((q * 4096) as u64)) | flags@
                            }));
                        }
                    }
                }
            }
            let remaining = iter.end.number() - iter.start.number();
            let advance = if (skip as u64) < remaining {
                skip as u64
            } else {
                remaining
            };
            iter = PageRange::new(iter.start.plus(advance), iter.end);
        }
        proof {
            if all {
                assert forall|q: int| pages.start@ <= q < pages.end@ implies #[trigger] self.spec_translate_page(
                    q as u64,
                ) == old_self.spec_translate_page(q as u64) by {
                    assert(page_kept(old_self, *self, q));
                }
            }
            if laid {
                assert forall|q: int| pages.start@ <= q < pages.end@ implies (old_self.walk(
                    #[trigger] page_addr(q),
                ) is Err ==> self.walk(page_addr(q)) is Err) && (old_self.walk(page_addr(q)) is Ok
                    ==> self.walk(page_addr(q)) == Ok::<u64, TranslationError>(
                    entry_addr(old_self.l1_entry(page_addr(q))) | flags@,
                )) by {
                    assert(reflag_kept(old_self, *self, q, flags@, iter.start@ as int));
                }
            }
        }
        Ok(())
    }
}

} // verus!
