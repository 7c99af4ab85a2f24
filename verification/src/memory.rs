//! The kernel's memory: its mappings, the frames that address spaces take from the frame
//! allocator, and the setting up of the frame allocator and the heap at boot.

use vstd::prelude::*;
use vstd::string::StringExecFns;
use crate::boot_info::BootInfo;
use crate::memory_tracker::MemoryTracker;
use crate::frame_allocator::{
    all_allocated, allocation_of, region_in_physical_memory, region_offers, regions_frame_count, FrameAllocator, MAX_FRAMES,
};
use crate::memory_types::{
    table_index, div_ceil, is_physical_addr, Frame, FrameAllocator as AllocateFrame, Page, VirtualAddress,
    MEBIBYTE, PAGE_SIZE,
};
use crate::paging::{
    flag_bits_only, hierarchy, leveled, slots_between, slots_of, entry_frame, entry_is_huge, entry_is_present, fresh_tables, holds_back_high_frames, mapped_along,
    parent_flags, path_in_use,
    FlushMapping, USER_ACCESSIBLE_BIT, Level4PageTable, MappingError,
    PageRange, PageTableFlags, TranslationError, HUGE_PAGE_BIT, PRESENT_BIT, WRITABLE_BIT,
};

verus! {

/// Where the kernel heap starts: the first address of level 4 entry 509.
pub const HEAP_BASE: u64 = 0xFFFF_FE80_0000_0000;
/// Where the kernel's mappings start: the first address of level 4 entry 510.
pub const KERNEL_MAPPING_BASE: u64 = 0xFFFF_FF00_0000_0000;
/// The size of the kernel heap: 32 MiB.
pub const HEAP_SIZE: usize = 33554432;
/// The least physical memory the kernel runs with: 64 MiB.
pub const MIN_PHYSICAL_MEMORY: usize = 67108864;

/// A set of mapped pages within the kernel's address space.
#[derive(Debug)]
pub struct KernelMapping {
    pub name: String,
    pub size: usize,
    pub pages: PageRange,
    pub flags: PageTableFlags,
}

/// A mapping of `len` pages placed at `offset` fits the address space: its pages, from the
/// one of the canonical address that `offset` names, all have addresses.
pub open spec fn mapping_fits(offset: u64, len: int) -> bool {
    (crate::memory_types::canonical(offset) / 4096 + len) * 4096 <= u64::MAX
}

/// Whether a mapping of `len` pages placed at `offset` fits the address space.
pub fn fits_address_space(offset: u64, len: usize) -> (r: bool)
    ensures
        r == mapping_fits(offset, len as int),
{
    let base = VirtualAddress::new(offset).to_raw();
    ((base / 4096) as u128 + len as u128) * 4096 <= u64::MAX as u128
}

impl KernelMapping {
    /// A mapping named `name` of `size_in_bytes` bytes, whole pages, placed at `next_offset`,
    /// which then moves past it, and mapped with `flags` in the kernel's address space `kernel`
    /// as [`AddressSpace::map_pages`] does, frames coming from `allocator` and the mapping
    /// recorded in `tracker`. Where the tables under the mapping's level 4 entries form a
    /// hierarchy that `allocator` holds ([`leveled`]), success maps every page of the mapping
    /// with `flags` to a frame of its own that was free, and a failure is the allocator
    /// running out or a page found mapped already.
    pub fn new(
        name: String,
        size_in_bytes: usize,
        flags: PageTableFlags,
        next_offset: &mut u64,
        kernel: &mut AddressSpace,
        allocator: &mut FrameAllocator,
        tracker: &mut MemoryTracker,
    ) -> (r: Result<Self, MappingError>)
        requires
            *old(next_offset) + div_ceil(size_in_bytes as int, 4096) * 4096 <= u64::MAX,
            mapping_fits(*old(next_offset), div_ceil(size_in_bytes as int, 4096)),
            old(kernel).page_table.wf(),
            old(allocator).wf(),
            flags@ & PRESENT_BIT == PRESENT_BIT,
            flags@ & HUGE_PAGE_BIT == 0,
            flag_bits_only(flags@),
        ensures
            *final(next_offset) == *old(next_offset) + div_ceil(size_in_bytes as int, 4096) * 4096,
            final(kernel).name == old(kernel).name,
            final(kernel).frame == old(kernel).frame,
            final(kernel).page_table.wf(),
            final(allocator).wf(),
            r matches Ok(k) ==> k.name@ == name@ && k.size == size_in_bytes && k.flags == flags
                && k.pages.start@ == crate::memory_types::canonical(*old(next_offset)) / 4096
                && k.pages.end@ == k.pages.start@ + div_ceil(size_in_bytes as int, 4096),
            r matches Ok(k) ==> final(tracker).spaces() == spaces_with(
                old(tracker).spaces(),
                old(kernel).name@,
                old(kernel).frame@,
                name@,
                k.pages,
            ) && final(tracker).pci_bars() == old(tracker).pci_bars() && final(tracker).kernel_pages()
                == old(tracker).kernel_pages() && final(tracker).framebuffer_pages() == old(
                tracker,
            ).framebuffer_pages(),
            r is Err ==> *final(tracker) == *old(tracker),
            ({
                let start = (crate::memory_types::canonical(*old(next_offset)) / 4096) as int;
                let end = start + div_ceil(size_in_bytes as int, 4096);
                hierarchy(old(kernel).page_table, *old(allocator), slots_between(start, end))
                    ==> (r is Ok ==> pages_mapped(final(kernel).page_table, *old(allocator), start, end, flags@))
                    && (r matches Err(e) ==> (e == MappingError::FrameAllocationFailed
                    && AllocateFrame::exhausted(&*final(allocator))) || e is PageAlreadyMapped)
                    && (r matches Err(e) && e is PageAlreadyMapped ==> some_page_mapped(
                    final(kernel).page_table,
                    start,
                    end,
                ))
            }),
            forall|more: Set<int>|
                #[trigger] slots_between(
                    (crate::memory_types::canonical(*old(next_offset)) / 4096) as int,
                    (crate::memory_types::canonical(*old(next_offset)) / 4096) as int + div_ceil(
                        size_in_bytes as int,
                        4096,
                    ),
                ).subset_of(more)
                    && hierarchy(old(kernel).page_table, *old(allocator), more)
                    ==> (r is Ok ==> hierarchy(final(kernel).page_table, *final(allocator), more)),
    {
        let len = crate::paging::pages_for_size(size_in_bytes);
        let addr = VirtualAddress::new(*next_offset);
        proof {
            assert(addr@ / 4096 + len <= u64::MAX) by (nonlinear_arith)
                requires
                    len == div_ceil(size_in_bytes as int, 4096),
                    len * 4096 <= u64::MAX,
                    addr@ <= u64::MAX,
            ;
        }
        *next_offset = *next_offset + (len as u64) * 4096;
        let pages = PageRange::from_base_len(addr, len);
        let ghost start = (crate::memory_types::canonical(*old(next_offset)) / 4096) as int;
        let ghost end = start + div_ceil(size_in_bytes as int, 4096);
        proof {
            assert(pages.start@ == start && pages.end@ == end);
            assert(slots_of(pages) == slots_between(start, end));
        }
        let res = kernel.map_pages(allocator, tracker, name.clone(), pages, flags);
        proof {
            // The slots of `pages` are those from `start` to `end`.
            assert forall|more: Set<int>|
                #[trigger] slots_between(start, end).subset_of(more) && hierarchy(
                    old(kernel).page_table,
                    *old(allocator),
                    more,
                ) && res is Ok implies hierarchy(kernel.page_table, *allocator, more) by {
                assert(slots_of(pages).subset_of(more));
            }
        }
        match res {
            Ok(_) => Ok(KernelMapping { name, size: size_in_bytes, pages, flags }),
            Err(e) => Err(e),
        }
    }

    /// The first address of the mapping.
    pub fn addr(&self) -> (r: VirtualAddress)
        requires
            self.pages.start@ * 4096 <= u64::MAX,
        ensures
            r@ == self.pages.start@ * 4096,
    {
        self.pages.start.base_addr()
    }

    pub fn size(&self) -> (r: usize)
        ensures
            r == self.size,
    {
        self.size
    }
}

/// An address in the kernel's half of the address space is canonical as it stands.
proof fn lemma_kernel_half_canonical(x: u64)
    requires
        x >= 0xFFFF_8000_0000_0000,
    ensures
        crate::memory_types::canonical(x) == x,
{
    assert(x >= 0xFFFF_8000_0000_0000 ==> crate::memory_types::canonical(x) == x) by (bit_vector);
}

/// Kernel mappings made one after the other never overlap: the pages that
/// [`KernelMapping::new`] places for `size1` bytes at `offset` end where the pages it then
/// places at the moved offset begin, when the offset lies in the kernel's half of the address
/// space.
pub proof fn law_kernel_mappings_follow_each_other(offset: u64, size1: usize)
    requires
        offset >= 0xFFFF_8000_0000_0000,
        offset + div_ceil(size1 as int, 4096) * 4096 <= u64::MAX,
    ensures
        ({
            let d1 = div_ceil(size1 as int, 4096);
            let next = (offset + d1 * 4096) as u64;
            crate::memory_types::canonical(offset) / 4096 + d1 == crate::memory_types::canonical(next)
                / 4096
        }),
{
    let d1 = div_ceil(size1 as int, 4096);
    let next = (offset + d1 * 4096) as u64;
    lemma_kernel_half_canonical(offset);
    assert(d1 >= 0);
    lemma_kernel_half_canonical(next);
    assert((offset + d1 * 4096) / 4096 == offset / 4096 + d1) by (nonlinear_arith)
        requires
            d1 >= 0,
    ;
}

/// The frames an address space took from the frame allocator, to give back when it goes.
#[derive(Debug)]
pub struct FrameAllocatorProxy {
    allocated_frames: Vec<Frame>,
}

impl FrameAllocatorProxy {
    /// The frames taken so far, in order.
    pub closed spec fn frames(&self) -> Seq<Frame> {
        self.allocated_frames@
    }

    pub fn new() -> (r: Self)
        ensures
            r.frames() == Seq::<Frame>::empty(),
    {
        FrameAllocatorProxy { allocated_frames: Vec::new() }
    }

    /// Takes a frame from `global`, and remembers it.
    pub fn allocate_frame(&mut self, global: &mut FrameAllocator) -> (r: Option<Frame>)
        requires
            old(global).wf(),
        ensures
            final(global).wf(),
            r matches Some(frame) ==> final(self).frames() == old(self).frames().push(frame)
                && frame@ < MAX_FRAMES && !old(global).allocated()[frame@ as int]
                && final(global).allocated() == old(global).allocated().update(frame@ as int, true),
            r is None ==> final(self).frames() == old(self).frames() && *final(global) == *old(global),
            r matches Some(frame) ==> allocation_of(*old(global), *final(global), frame@ as int),
            r is None <==> (old(global).free_frames_spec() == 0 || all_allocated(
                old(global).allocated(),
                0,
                MAX_FRAMES as int,
            )),
    {
        let frame = global.allocate_frame();
        if let Some(f) = frame {
            self.allocated_frames.push(f);
        }
        frame
    }

    /// Gives every frame taken back to `global`, whatever `global` says of each.
    pub fn release(&mut self, global: &mut FrameAllocator)
        requires
            old(global).wf(),
        ensures
            final(global).wf(),
            final(self).frames() == Seq::<Frame>::empty(),
            forall|f: int|
                0 <= f < MAX_FRAMES && !(exists|i: int|
                    0 <= i < old(self).frames().len() && #[trigger] old(self).frames()[i]@ == f)
                    ==> #[trigger] final(global).allocated()[f] == old(global).allocated()[f],
    {
        let mut i: usize = 0;
        while i < self.allocated_frames.len()
            invariant
                global.wf(),
                i <= self.allocated_frames@.len(),
                self.allocated_frames@ == old(self).frames(),
                forall|f: int|
                    0 <= f < MAX_FRAMES && !(exists|j: int|
                        0 <= j < i && #[trigger] self.allocated_frames@[j]@ == f)
                        ==> #[trigger] global.allocated()[f] == old(global).allocated()[f],
            decreases self.allocated_frames@.len() - i,
        {
            let frame = self.allocated_frames[i];
            let ghost before = *global;
            proof {
                before.lemma_allocated_len();
            }
            if global.free_frames() < usize::MAX {
                let _ = global.deallocate(frame);
            }
            assert forall|f: int| 0 <= f < MAX_FRAMES && f != frame@ implies #[trigger] global.allocated()[f]
                == before.allocated()[f] by {}
            i = i + 1;
        }
        self.allocated_frames.clear();
    }
}

/// Whether frame `f` is in use once the frame allocator is set up from `boot_info`: the memory
/// map does not offer it, or it lies in the first MiB, in the kernel, or in the range reserved
/// for the framebuffer (whose size is taken as its address plus its size).
pub open spec fn reserved_at_boot(boot_info: BootInfo, f: int) -> bool {
    let regions = boot_info.memory_map.regions@;
    let kernel_lo = boot_info.kernel_start / 4096;
    let kernel_hi = kernel_lo + div_ceil(boot_info.kernel_end - boot_info.kernel_start, 4096);
    let fb_addr = boot_info.display_info.framebuffer_addr;
    let fb_lo = fb_addr / 4096;
    let fb_hi = fb_lo + div_ceil(fb_addr + boot_info.display_info.framebuffer_size, 4096);
    ||| !(exists|i: int| 0 <= i < regions.len() && region_offers(#[trigger] regions[i], f))
    ||| 0 <= f < 256
    ||| kernel_lo <= f < kernel_hi
    ||| fb_lo <= f < fb_hi
}

/// What `memory::init` does with the frame allocator: sets it up from the memory map, reserves
/// the first MiB, the kernel and the framebuffer, and tries one allocation and its release.
/// Returns the number of free frames after the reservations.
pub fn init_frame_allocator(allocator: &mut FrameAllocator, boot_info: &BootInfo) -> (r: usize)
    requires
        old(allocator).wf(),
        forall|i: int|
            0 <= i < boot_info.memory_map.regions@.len() ==> region_in_physical_memory(
                #[trigger] boot_info.memory_map.regions@[i],
            ),
        regions_frame_count(
            boot_info.memory_map.regions@,
            boot_info.memory_map.regions@.len() as int,
        ) <= usize::MAX,
        boot_info.kernel_start <= boot_info.kernel_end,
        is_physical_addr(boot_info.kernel_start as u64),
        is_physical_addr(boot_info.display_info.framebuffer_addr),
        boot_info.display_info.framebuffer_addr + boot_info.display_info.framebuffer_size
            <= usize::MAX,
    ensures
        final(allocator).wf(),
        forall|f: int|
            0 <= f < MAX_FRAMES ==> #[trigger] final(allocator).allocated()[f] == reserved_at_boot(
                *boot_info,
                f,
            ),
        r == final(allocator).free_frames_spec(),
{
    allocator.init(&boot_info.memory_map);
    allocator.reserve_range(VirtualAddress::new(0), MEBIBYTE);
    allocator.reserve_range(
        VirtualAddress::new(boot_info.kernel_start as u64),
        boot_info.kernel_end - boot_info.kernel_start,
    );
    let fb_addr = boot_info.display_info.framebuffer_addr;
    allocator.reserve_range(
        VirtualAddress::new(fb_addr),
        fb_addr as usize + boot_info.display_info.framebuffer_size,
    );
    let ghost reserved = *allocator;
    proof {
        assert forall|f: int| 0 <= f < MAX_FRAMES implies #[trigger] reserved.allocated()[f]
            == reserved_at_boot(*boot_info, f) by {}
    }
    let free_frames = allocator.free_frames();
    match allocator.allocate() {
        Ok(frame) => {
            let ghost mid = *allocator;
            proof {
                reserved.lemma_allocated_len();
            }
            assert(crate::frame_allocator::allocation_of(reserved, mid, frame@ as int));
            assert(mid.allocated()[frame@ as int]);
            let _ = allocator.deallocate(frame);
            assert(crate::frame_allocator::release_of(mid, *allocator, frame@ as int));
            proof {
                crate::frame_allocator::law_allocate_then_deallocate(
                    reserved,
                    mid,
                    *allocator,
                    frame@ as int,
                );
            }
        },
        Err(_) => {},
    }
    free_frames
}


/// The pages of the kernel heap: `HEAP_SIZE` bytes from `HEAP_BASE`.
pub fn heap_pages() -> (r: PageRange)
    ensures
        r.start@ == HEAP_BASE / 4096,
        r.end@ == HEAP_BASE / 4096 + HEAP_SIZE / 4096,
{
    assert(crate::memory_types::canonical(HEAP_BASE) == HEAP_BASE) by (bit_vector);
    PageRange::from_base_size(VirtualAddress::new(HEAP_BASE), HEAP_SIZE)
}

/// Whether `free_frames` free frames are more physical memory than the kernel needs.
pub fn enough_physical_memory(free_frames: usize) -> (r: bool)
    ensures
        r == (free_frames * 4096 > MIN_PHYSICAL_MEMORY),
{
    free_frames > MIN_PHYSICAL_MEMORY / PAGE_SIZE
}

/// Maps every page of the kernel heap to a frame of its own from `allocator`, writable; the
/// tables on the way come from `allocator` too. Returns the mappings to flush. When the heap's
/// level 4 entry is unused to begin with, every heap page is then mapped, present and
/// writable, to a frame of its own that was free before.
pub fn map_heap(page_table: &mut Level4PageTable, allocator: &mut FrameAllocator) -> (r: Result<
    Vec<FlushMapping>,
    MappingError,
>)
    requires
        old(page_table).wf(),
        old(allocator).wf(),
    ensures
        final(page_table).wf(),
        final(allocator).wf(),
        r matches Ok(flushes) ==> flushes@.len() == HEAP_SIZE / 4096 && forall|i: int|
            0 <= i < flushes@.len() ==> (#[trigger] flushes@[i]).page_spec()@ == HEAP_BASE / 4096
                + i,
        old(page_table).root()[509] == 0 && r is Ok ==> heap_mapped(
            *final(page_table),
            *old(allocator),
            (HEAP_SIZE / 4096) as int,
        ),
        old(page_table).root()[509] == 0 && r is Err ==> r == Err::<Vec<FlushMapping>, MappingError>(
            MappingError::FrameAllocationFailed,
        ) && AllocateFrame::exhausted(&*final(allocator)),
{
    let ghost start = *allocator;
    let ghost unused = page_table.root()[509] == 0;
    let flags = PageTableFlags::present().union(PageTableFlags::writable());
    proof {
        crate::paging::lemma_mapping_flags();
    }
    let mut pages = heap_pages();
    let mut flushes: Vec<FlushMapping> = Vec::new();
    while pages.start.number() < pages.end.number()
        invariant
            page_table.wf(),
            allocator.wf(),
            pages.end@ == HEAP_BASE / 4096 + HEAP_SIZE / 4096,
            HEAP_BASE / 4096 <= pages.start@ <= pages.end@,
            flushes@.len() == pages.start@ - HEAP_BASE / 4096,
            forall|i: int|
                0 <= i < flushes@.len() ==> (#[trigger] flushes@[i]).page_spec()@ == HEAP_BASE
                    / 4096 + i,
            flags@ & PRESENT_BIT == PRESENT_BIT,
            flags@ & HUGE_PAGE_BIT == 0,
            flags@ & crate::paging::ADDRESS_MASK == 0,
            flags@ == PRESENT_BIT | WRITABLE_BIT,
            parent_flags(flags@) == PRESENT_BIT | WRITABLE_BIT,
            unused == (old(page_table).root()[509] == 0),
            unused ==> heap_progress(*page_table, *allocator, start, pages.start@ - HEAP_BASE / 4096),
        decreases pages.end@ - pages.start@,
    {
        let page = match pages.next() {
            Some(page) => page,
            None => {
                assert(false);
                return Err(MappingError::FrameAllocationFailed);
            },
        };
        let ghost k = page@ - HEAP_BASE / 4096;
        let ghost pt0 = *page_table;
        let ghost al0 = *allocator;
        let frame = match allocator.allocate_frame() {
            Some(frame) => frame,
            None => return Err(MappingError::FrameAllocationFailed),
        };
        let ghost al1 = *allocator;
        proof {
            lemma_heap_indices(k);
            if unused {
                lemma_heap_path_distinct(pt0, al0, k);
                al0.lemma_allocated_len();
                al1.lemma_allocated_len();
                assert forall|g: u64| AllocateFrame::in_use(&al0, g) implies #[trigger] AllocateFrame::in_use(
                    &al1,
                    g,
                ) by {
                    if g < MAX_FRAMES {
                        assert(al1.allocated()[g as int]);
                    }
                }
                lemma_heap_map_ready(pt0, al0, al1, k);
                assert(holds_back_high_frames(al1));
            }
        }
        let flush = match page_table.map_to(page, frame, flags, allocator) {
            Ok(flush) => flush,
            Err(e) => return Err(e),
        };
        proof {
            if unused {
                lemma_heap_step(pt0, *page_table, al0, al1, *allocator, start, k, frame@);
            }
        }
        flushes.push(flush);
    }
    Ok(flushes)
}

/// The level 1 entry that maps page `q` in `pt`.
pub open spec fn leaf_of(pt: Level4PageTable, q: int) -> u64 {
    pt.l1_entry((q * 4096) as u64)
}

/// Page `q` is mapped in `pt` with exactly `flags`, to a frame that `before` had free.
pub open spec fn page_mapped_fresh(pt: Level4PageTable, before: FrameAllocator, q: int, flags: u64) -> bool {
    let e = leaf_of(pt, q);
    &&& pt.walk((q * 4096) as u64) == Ok::<u64, TranslationError>(e)
    &&& e == ((entry_frame(e) * 4096) as u64 | flags)
    &&& !AllocateFrame::in_use(&before, entry_frame(e))
}

/// Page `q` is mapped in `pt`.
pub open spec fn page_is_mapped(pt: Level4PageTable, q: int) -> bool {
    pt.spec_translate_page(q as u64) is Ok
}

/// Some page from `start` up to `end` is mapped in `pt`.
pub open spec fn some_page_mapped(pt: Level4PageTable, start: int, end: int) -> bool {
    exists|q: int| start <= q < end && #[trigger] page_is_mapped(pt, q)
}

/// Every page from `start` up to `end` is mapped in `pt` with `flags`, each to a frame of its
/// own that `before` had free.
pub open spec fn pages_mapped(pt: Level4PageTable, before: FrameAllocator, start: int, end: int, flags: u64) -> bool {
    &&& forall|q: int| start <= q < end ==> #[trigger] page_mapped_fresh(pt, before, q, flags)
    &&& forall|q1: int, q2: int|
        start <= q1 < q2 < end ==> entry_frame(#[trigger] leaf_of(pt, q1)) != entry_frame(
            #[trigger] leaf_of(pt, q2),
        )
}

/// Maps each page of `pages` to a frame of its own from `allocator`, with `flags`, making the
/// tables on the way with frames from `allocator` too, and returns the mappings to flush.
/// When the tables under the level 4 entries of `pages` form a hierarchy that `allocator`
/// holds ([`leveled`]; they do where those entries are unused), then on success every page is
/// mapped with `flags` to a frame of its own that was free before, and the tables still form
/// such a hierarchy; a failure is the allocator running out, or a page found mapped already.
pub fn map_range(
    page_table: &mut Level4PageTable,
    allocator: &mut FrameAllocator,
    pages: PageRange,
    flags: PageTableFlags,
) -> (r: Result<Vec<FlushMapping>, MappingError>)
    requires
        old(page_table).wf(),
        old(allocator).wf(),
        pages.end@ * 4096 <= u64::MAX,
        flags@ & PRESENT_BIT == PRESENT_BIT,
        flags@ & HUGE_PAGE_BIT == 0,
        flag_bits_only(flags@),
    ensures
        final(page_table).wf(),
        final(allocator).wf(),
        r matches Ok(flushes) ==> (pages.start@ < pages.end@ ==> flushes@.len() == pages.end@
            - pages.start@) && (pages.start@ >= pages.end@ ==> flushes@.len() == 0) && forall|i: int|
            0 <= i < flushes@.len() ==> (#[trigger] flushes@[i]).page_spec()@ == pages.start@ + i,
        hierarchy(*old(page_table), *old(allocator), slots_of(pages))
            ==> (r is Ok ==> pages_mapped(
            *final(page_table),
            *old(allocator),
            pages.start@ as int,
            pages.end@ as int,
            flags@,
        ) && hierarchy(*final(page_table), *final(allocator), slots_of(pages))),
        hierarchy(*old(page_table), *old(allocator), slots_of(pages))
            ==> (r matches Err(e) ==> (e == MappingError::FrameAllocationFailed && AllocateFrame::exhausted(
            &*final(allocator),
        )) || e is PageAlreadyMapped),
        hierarchy(*old(page_table), *old(allocator), slots_of(pages)) ==> (r matches Err(e) && e is PageAlreadyMapped
            ==> some_page_mapped(*final(page_table), pages.start@ as int, pages.end@ as int)),
        forall|more: Set<int>|
            #[trigger] slots_of(pages).subset_of(more)
                && hierarchy(*old(page_table), *old(allocator), more)
                ==> (r is Ok ==> hierarchy(*final(page_table), *final(allocator), more)),
{
    let ghost start = *allocator;
    let ghost slots = slots_of(pages);
    let ghost hyp = hierarchy(*old(page_table), start, slots);
    let ghost mut levels = choose|levels: Map<u64, int>| leveled(*old(page_table), start, slots, levels);
    let ghost s = pages.start@ as int;
    let ghost mut pts: Seq<Level4PageTable> = seq![*page_table];
    let ghost mut als: Seq<FrameAllocator> = seq![*allocator];
    let ghost mut addrs: Seq<u64> = Seq::empty();
    let mut iter = pages;
    let mut flushes: Vec<FlushMapping> = Vec::new();
    while iter.start.number() < iter.end.number()
        invariant
            page_table.wf(),
            allocator.wf(),
            iter.end == pages.end,
            pages.end@ * 4096 <= u64::MAX,
            flags@ & PRESENT_BIT == PRESENT_BIT,
            flags@ & HUGE_PAGE_BIT == 0,
            flag_bits_only(flags@),
            s == pages.start@,
            start == *old(allocator),
            slots == slots_of(pages),
            s <= iter.start@,
            s < pages.end@ ==> iter.start@ <= pages.end@,
            s >= pages.end@ ==> iter.start@ == s,
            flushes@.len() == iter.start@ - s,
            forall|i: int| 0 <= i < flushes@.len() ==> (#[trigger] flushes@[i]).page_spec()@ == s + i,
            forall|g: u64| AllocateFrame::in_use(&start, g) ==> #[trigger] AllocateFrame::in_use(&*allocator, g),
            hyp == hierarchy(*old(page_table), start, slots),
            hyp ==> leveled(*page_table, *allocator, slots, levels),
            pts.len() == addrs.len() + 1,
            als.len() == pts.len(),
            pts[0] == *old(page_table),
            als[0] == start,
            pts.last() == *page_table,
            als.last() == *allocator,
            hyp ==> forall|i: int|
                0 <= i < addrs.len() ==> crate::paging::mapping_step(
                    pts[i],
                    als[i],
                    pts[i + 1],
                    als[i + 1],
                    #[trigger] addrs[i],
                    flags@,
                ) && slots.contains(table_index(addrs[i], 39) as int),
            hyp ==> pages_mapped(*page_table, start, s, iter.start@ as int, flags@),
            hyp ==> forall|q: int|
                s <= q < iter.start@ ==> AllocateFrame::in_use(&*allocator, entry_frame(#[trigger] leaf_of(*page_table, q))),
        decreases iter.end@ - iter.start@,
    {
        let page = match iter.next() {
            Some(page) => page,
            None => {
                assert(false);
                return Err(MappingError::FrameAllocationFailed);
            },
        };
        let ghost pt0 = *page_table;
        let ghost al0 = *allocator;
        let ghost paddr = (page@ * 4096) as u64;
        let frame = match allocator.allocate_frame() {
            Some(frame) => frame,
            None => return Err(MappingError::FrameAllocationFailed),
        };
        let ghost al1 = *allocator;
        proof {
            al0.lemma_allocated_len();
            al1.lemma_allocated_len();
            assert forall|g: u64| AllocateFrame::in_use(&al0, g) implies #[trigger] AllocateFrame::in_use(
                &al1,
                g,
            ) by {
                if g < MAX_FRAMES {
                    assert(al1.allocated()[g as int]);
                }
            }
            assert(holds_back_high_frames(al1));
            if hyp {
                assert(pages.start@ <= page@ < pages.end@ && table_index(paddr, 39) as int
                    == crate::paging::page_slot(page@ as int));
                assert(slots.contains(table_index(paddr, 39) as int));
                crate::paging::lemma_leveled_path(pt0, al1, slots, levels, paddr);
            }
        }
        let flush = match page_table.map_to(page, frame, flags, allocator) {
            Ok(flush) => flush,
            Err(e) => {
                proof {
                    if hyp {
                        assert(pt0.path_distinct(paddr));
                        assert(path_in_use(pt0, paddr, al1));
                        assert(!pt0.reaches_huge_page(paddr));
                        if pt0.tables_exist(paddr) && pt0.l1_entry(paddr) != 0 {
                            assert(e == MappingError::PageAlreadyMapped { to: frame });
                            assert(pt0.path_present(paddr));
                            assert(pt0.walk(paddr) is Ok);
                            assert(page_is_mapped(*page_table, page@ as int));
                            assert(pages.start@ <= page@ < pages.end@);
                        } else {
                            assert(e == MappingError::FrameAllocationFailed);
                            assert(AllocateFrame::exhausted(&*allocator));
                        }
                    }
                }
                return Err(e);
            },
        };
        proof {
            if hyp {
                let pt1 = *page_table;
                let al2 = *allocator;
                crate::paging::lemma_leveled_step(pt0, pt1, paddr, flags@, al1, al2, slots, levels);
                let k = page@ as int;
                assert forall|q: int| s <= q < k implies #[trigger] page_mapped_fresh(pt1, start, q, flags@)
                    && leaf_of(pt1, q) == leaf_of(pt0, q) by {
                    assert(page_mapped_fresh(pt0, start, q, flags@));
                    assert(pages.start@ <= q < pages.end@ && table_index((q * 4096) as u64, 39) as int
                        == crate::paging::page_slot(q));
                    assert(((q as u64) * 4096) as u64 == (q * 4096) as u64);
                    crate::paging::lemma_leveled_keeps_leaf(
                        pt0,
                        pt1,
                        paddr,
                        flags@,
                        al1,
                        al2,
                        slots,
                        levels,
                        q as u64,
                    );
                }
                assert(leaf_of(pt1, k) == pt1.l1_entry(paddr));
                assert(entry_frame(leaf_of(pt1, k)) == frame@);
                assert(page_mapped_fresh(pt1, start, k, flags@));
                assert forall|q1: int, q2: int|
                    s <= q1 < q2 < k + 1 implies entry_frame(#[trigger] leaf_of(pt1, q1)) != entry_frame(
                    #[trigger] leaf_of(pt1, q2),
                ) by {
                    assert(page_mapped_fresh(pt1, start, q1, flags@));
                    if q2 == k {
                        assert(AllocateFrame::in_use(&al0, entry_frame(leaf_of(pt0, q1))));
                        assert(!AllocateFrame::in_use(&al0, frame@));
                    } else {
                        assert(page_mapped_fresh(pt1, start, q2, flags@));
                        assert(entry_frame(leaf_of(pt0, q1)) != entry_frame(leaf_of(pt0, q2)));
                    }
                }
                assert forall|q: int| s <= q < k + 1 implies AllocateFrame::in_use(
                    &al2,
                    entry_frame(#[trigger] leaf_of(pt1, q)),
                ) by {
                    if q < k {
                        assert(page_mapped_fresh(pt1, start, q, flags@));
                        assert(AllocateFrame::in_use(&al0, entry_frame(leaf_of(pt0, q))));
                    }
                }
                levels = crate::paging::step_levels(pt0, pt1, paddr, levels);
                assert forall|g: u64| AllocateFrame::in_use(&al0, g) implies #[trigger] AllocateFrame::in_use(
                    &al2,
                    g,
                ) by {
                    assert(AllocateFrame::in_use(&al1, g));
                }
                let e4 = pt0.root()[table_index(paddr, 39) as int];
                let e3 = if e4 == 0 { 0u64 } else { pt0.l3_entry(paddr) };
                let e2 = if e3 == 0 { 0u64 } else { pt0.l2_entry(paddr) };
                if e4 == 0 {
                    assert(!AllocateFrame::in_use(&al0, entry_frame(pt1.root()[table_index(paddr, 39) as int])));
                }
                if e3 == 0 {
                    assert(!AllocateFrame::in_use(&al0, entry_frame(pt1.l3_entry(paddr))));
                }
                if e2 == 0 {
                    assert(!AllocateFrame::in_use(&al0, entry_frame(pt1.l2_entry(paddr))));
                }
                assert(crate::paging::mapping_step(pt0, al0, pt1, al2, paddr, flags@));
            }
            let ghost pts0 = pts;
            let ghost als0 = als;
            let ghost addrs0 = addrs;
            pts = pts.push(*page_table);
            als = als.push(*allocator);
            addrs = addrs.push(paddr);
            if hyp {
                assert forall|i: int| 0 <= i < addrs.len() implies crate::paging::mapping_step(
                    pts[i],
                    als[i],
                    pts[i + 1],
                    als[i + 1],
                    #[trigger] addrs[i],
                    flags@,
                ) && slots.contains(table_index(addrs[i], 39) as int) by {
                    if i < addrs0.len() {
                        assert(addrs0[i] == addrs[i]);
                        assert(pts0[i + 1] == pts[i + 1]);
                    }
                }
            }
        }
        flushes.push(flush);
    }
    proof {
        assert forall|more: Set<int>|
            #[trigger] slots_of(pages).subset_of(more) && hierarchy(pts[0], start, more) implies hierarchy(*page_table, *allocator, more) by {
            let l = choose|levels: Map<u64, int>| leveled(pts[0], start, more, levels);
            crate::paging::lemma_leveled_fewer_slots(pts[0], start, more, slots, l);
            assert(hyp);
            assert forall|i: int| 0 <= i < addrs.len() implies crate::paging::mapping_step(
                pts[i],
                als[i],
                pts[i + 1],
                als[i + 1],
                #[trigger] addrs[i],
                flags@,
            ) && more.contains(table_index(addrs[i], 39) as int) by {
                assert(slots.contains(table_index(addrs[i], 39) as int));
            }
            crate::paging::lemma_leveled_steps(pts, als, addrs, flags@, more, l);
        }
    }
    Ok(flushes)
}

/// An address space: its name, the frame that holds its level 4 table, and its page table.
pub struct AddressSpace {
    pub name: String,
    pub frame: Frame,
    pub page_table: Level4PageTable,
}

/// What [`MemoryTracker::record_mapping`] makes of the tracker's address spaces when `space`,
/// whose level 4 table is in frame `frame`, maps `pages` under `name`.
pub open spec fn spaces_with(
    spaces: Map<(Seq<char>, u64), Seq<(Seq<char>, PageRange)>>,
    space: Seq<char>,
    frame: u64,
    name: Seq<char>,
    pages: PageRange,
) -> Map<(Seq<char>, u64), Seq<(Seq<char>, PageRange)>> {
    spaces.insert(
        (space, frame),
        (if spaces.dom().contains((space, frame)) {
            spaces[(space, frame)]
        } else {
            Seq::empty()
        }).push((name, pages)),
    )
}

impl AddressSpace {
    /// The name of this address space.
    pub fn name(&self) -> (r: &str)
        ensures
            r@ == self.name@,
    {
        self.name.as_str()
    }

    /// Maps each page of `pages` to a frame of its own from `allocator`, with `flags`, as
    /// [`map_range`] does, and then records in `tracker` that this address space mapped
    /// `pages` under `name`. Where the tables under the level 4 entries of `pages` form a
    /// hierarchy that `allocator` holds, success maps every page with `flags` to a frame of
    /// its own that was free before, and a failure is the allocator running out or a page
    /// found mapped already.
    pub fn map_pages(
        &mut self,
        allocator: &mut FrameAllocator,
        tracker: &mut MemoryTracker,
        name: String,
        pages: PageRange,
        flags: PageTableFlags,
    ) -> (r: Result<Vec<FlushMapping>, MappingError>)
        requires
            old(self).page_table.wf(),
            old(allocator).wf(),
            pages.end@ * 4096 <= u64::MAX,
            flags@ & PRESENT_BIT == PRESENT_BIT,
            flags@ & HUGE_PAGE_BIT == 0,
            flag_bits_only(flags@),
        ensures
            final(self).name == old(self).name,
            final(self).frame == old(self).frame,
            final(self).page_table.wf(),
            final(allocator).wf(),
            r matches Ok(flushes) ==> (pages.start@ < pages.end@ ==> flushes@.len() == pages.end@
                - pages.start@) && (pages.start@ >= pages.end@ ==> flushes@.len() == 0) && forall|i: int|
                0 <= i < flushes@.len() ==> (#[trigger] flushes@[i]).page_spec()@ == pages.start@ + i,
            r is Ok ==> final(tracker).spaces() == spaces_with(
                old(tracker).spaces(),
                old(self).name@,
                old(self).frame@,
                name@,
                pages,
            ) && final(tracker).pci_bars() == old(tracker).pci_bars() && final(tracker).kernel_pages()
                == old(tracker).kernel_pages() && final(tracker).framebuffer_pages() == old(
                tracker,
            ).framebuffer_pages(),
            r is Err ==> *final(tracker) == *old(tracker),
            hierarchy(old(self).page_table, *old(allocator), slots_of(pages)) ==> (r is Ok
                ==> pages_mapped(
                final(self).page_table,
                *old(allocator),
                pages.start@ as int,
                pages.end@ as int,
                flags@,
            ) && hierarchy(final(self).page_table, *final(allocator), slots_of(pages))),
            hierarchy(old(self).page_table, *old(allocator), slots_of(pages)) ==> (r matches Err(
                e,
            ) ==> (e == MappingError::FrameAllocationFailed && AllocateFrame::exhausted(&*final(allocator)))
                || e is PageAlreadyMapped),
            hierarchy(old(self).page_table, *old(allocator), slots_of(pages)) ==> (r matches Err(e)
                && e is PageAlreadyMapped ==> some_page_mapped(
                final(self).page_table,
                pages.start@ as int,
                pages.end@ as int,
            )),
            forall|more: Set<int>|
                #[trigger] slots_of(pages).subset_of(more)
                    && hierarchy(old(self).page_table, *old(allocator), more)
                    ==> (r is Ok ==> hierarchy(final(self).page_table, *final(allocator), more)),
    {
        let flushes = match map_range(&mut self.page_table, allocator, pages, flags) {
            Ok(flushes) => flushes,
            Err(e) => return Err(e),
        };
        tracker.record_mapping(self.name.clone(), self.frame.number(), name, pages);
        Ok(flushes)
    }

    /// The frame that `page` is mapped to in this address space, if it is.
    pub fn translate_page(&self, page: Page) -> (r: Option<Frame>)
        requires
            self.page_table.wf(),
            page@ * 4096 <= u64::MAX,
        ensures
            match self.page_table.spec_translate_page(page@) {
                Ok(f) => r matches Some(frame) && frame@ == f,
                Err(_) => r is None,
            },
    {
        match self.page_table.translate_page(page) {
            Ok(frame) => Some(frame),
            Err(_) => None,
        }
    }

    /// Gives each mapped page of `pages` the flags `flags`, as [`Level4PageTable::set_flags`]
    /// does: where the way to every page of the range is present, through tables in
    /// different frames, this succeeds, keeps every page's frame and gives each mapped page
    /// exactly `flags`. Where the tables under the range form a hierarchy ([`leveled`]), it
    /// fails only when the allocator runs out, and on success the mapped pages have exactly
    /// `flags` on their frames and the others stay unmapped.
    pub fn set_flags(&mut self, allocator: &mut FrameAllocator, pages: PageRange, flags: PageTableFlags) -> (r: Result<
        (),
        MappingError,
    >)
        requires
            old(self).page_table.wf(),
            old(allocator).wf(),
            pages.end@ * 4096 <= u64::MAX,
            flags@ & PRESENT_BIT == PRESENT_BIT,
            flags@ & HUGE_PAGE_BIT == 0,
            flag_bits_only(flags@),
        ensures
            final(self).name == old(self).name,
            final(self).frame == old(self).frame,
            final(self).page_table.wf(),
            final(allocator).wf(),
            r matches Err(e) ==> e == MappingError::FrameAllocationFailed || e
                == MappingError::MappedToHugePage,
            crate::paging::ways_present(old(self).page_table, pages) ==> r is Ok && crate::paging::flags_set(
                old(self).page_table,
                final(self).page_table,
                pages,
                flags@,
            ),
            hierarchy(old(self).page_table, *old(allocator), slots_of(pages)) ==> (r matches Err(e) ==> e
                == MappingError::FrameAllocationFailed && AllocateFrame::exhausted(&*final(allocator))) && (r is Ok
                ==> crate::paging::flags_given(old(self).page_table, final(self).page_table, pages, flags@)),
    {
        proof {
            assert(holds_back_high_frames(*allocator));
        }
        self.page_table.set_flags(pages, flags, allocator)
    }
}

/// The address of page `j` of the heap.
pub open spec fn heap_addr(j: int) -> u64 {
    (HEAP_BASE + j * 4096) as u64
}

/// The level 1 entry that maps page `j` of the heap in `pt`.
pub open spec fn heap_leaf(pt: Level4PageTable, j: int) -> u64 {
    pt.l1_entry(heap_addr(j))
}

/// Page `j` of the heap is mapped in `pt`, present and writable and nothing more, to a frame
/// that was free in `before`.
pub open spec fn heap_page_mapped(pt: Level4PageTable, before: FrameAllocator, j: int) -> bool {
    let e = heap_leaf(pt, j);
    &&& pt.walk(heap_addr(j)) == Ok::<u64, TranslationError>(e)
    &&& e == ((entry_frame(e) * 4096) as u64 | (PRESENT_BIT | WRITABLE_BIT))
    &&& entry_frame(e) < MAX_FRAMES
    &&& !before.allocated()[entry_frame(e) as int]
}

/// The first `k` pages of the heap are mapped in `pt`, each to a frame of its own that was
/// free in `before`.
pub open spec fn heap_mapped(pt: Level4PageTable, before: FrameAllocator, k: int) -> bool {
    &&& forall|j: int| 0 <= j < k ==> #[trigger] heap_page_mapped(pt, before, j)
    &&& forall|j1: int, j2: int|
        0 <= j1 < j2 < k ==> entry_frame(#[trigger] heap_leaf(pt, j1)) != entry_frame(
            #[trigger] heap_leaf(pt, j2),
        )
}

/// The table indices of page `j` of the heap: level 4 entry 509, level 3 entry 0, then `j`
/// split in 512s.
proof fn lemma_heap_indices(j: int)
    requires
        0 <= j < 8192,
    ensures
        table_index(heap_addr(j), 39) == 509,
        table_index(heap_addr(j), 30) == 0,
        table_index(heap_addr(j), 21) == j / 512,
        table_index(heap_addr(j), 12) == j % 512,
        heap_addr(j) == ((HEAP_BASE / 4096 + j) * 4096) as u64,
{
    let x = j as u64;
    let a = heap_addr(j);
    assert(a == (0xFFFF_FE80_0000_0000u64 + x * 4096) as u64);
    assert((a >> 39u64) % 512 == 509 && (a >> 30u64) % 512 == 0 && (a >> 21u64) % 512 == x / 512 && (a
        >> 12u64) % 512 == x % 512) by (bit_vector)
        requires
            x < 8192,
            a == (0xFFFF_FE80_0000_0000u64 + x * 4096) as u64,
    ;
}

/// The tables on the way to the heap in `pt` once its first `k` pages are mapped: none yet
/// when `k` is 0; otherwise level 4 entry 509 and level 3 entry 0 lead on to tables, level 2
/// entries up to that of page `k - 1` lead on to tables of their own, those after are unused,
/// and so are the level 1 entries after that of page `k - 1` in its table; every table is in a
/// frame that `alloc` has in use.
spec fn heap_tables(pt: Level4PageTable, alloc: FrameAllocator, k: int) -> bool {
    let r4 = pt.root()[509];
    let t3 = entry_frame(r4);
    let r3 = pt.table(t3)[0];
    let t2 = entry_frame(r3);
    let c = (k - 1) / 512;
    &&& k == 0 ==> r4 == 0
    &&& k > 0 ==> {
        &&& entry_is_present(r4) && !entry_is_huge(r4)
        &&& entry_is_present(r3) && !entry_is_huge(r3)
        &&& t3 != t2 && AllocateFrame::in_use(&alloc, t3) && AllocateFrame::in_use(&alloc, t2)
        &&& forall|m: int|
            0 <= m <= c ==> entry_is_present(#[trigger] pt.table(t2)[m]) && !entry_is_huge(
                pt.table(t2)[m],
            ) && entry_frame(pt.table(t2)[m]) != t3 && entry_frame(pt.table(t2)[m]) != t2
                && AllocateFrame::in_use(&alloc, entry_frame(pt.table(t2)[m]))
        &&& forall|m: int| c < m < 512 ==> #[trigger] pt.table(t2)[m] == 0
        &&& forall|m1: int, m2: int|
            0 <= m1 < m2 <= c ==> entry_frame(#[trigger] pt.table(t2)[m1]) != entry_frame(
                #[trigger] pt.table(t2)[m2],
            )
        &&& forall|i: int|
            k % 512 != 0 && k % 512 <= i < 512 ==> #[trigger] pt.table(entry_frame(pt.table(t2)[c]))[i]
                == 0
    }
}

/// What holds after the first `k` pages of the heap are mapped, from the allocator `before`
/// on: the tables on the way, the pages mapped, their frames in use now, and every frame in
/// use before still in use.
spec fn heap_progress(pt: Level4PageTable, alloc: FrameAllocator, before: FrameAllocator, k: int) -> bool {
    &&& heap_tables(pt, alloc, k)
    &&& heap_mapped(pt, before, k)
    &&& forall|j: int| 0 <= j < k ==> AllocateFrame::in_use(&alloc, entry_frame(#[trigger] heap_leaf(pt, j)))
    &&& forall|g: u64| AllocateFrame::in_use(&before, g) ==> #[trigger] AllocateFrame::in_use(&alloc, g)
}

/// With the tables on the way to the heap as [`heap_tables`] says, those on the way to page `k`
/// are held in different frames.
proof fn lemma_heap_path_distinct(pt: Level4PageTable, alloc: FrameAllocator, k: int)
    requires
        0 <= k < 8192,
        heap_tables(pt, alloc, k),
    ensures
        pt.path_distinct(heap_addr(k)),
{
    lemma_heap_indices(k);
    let r4 = pt.root()[509];
    let t3 = entry_frame(r4);
    let t2 = entry_frame(pt.table(t3)[0]);
    if k > 0 {
        assert(pt.l3_entry(heap_addr(k)) == pt.table(t3)[0]);
        assert(pt.l2_entry(heap_addr(k)) == pt.table(t2)[k / 512]);
        if k / 512 > (k - 1) / 512 {
            assert(pt.table(t2)[k / 512] == 0);
        } else {
            assert(k / 512 <= (k - 1) / 512);
        }
    }
}

/// Mapping page `k` of the heap, to a frame `f` just taken from the allocator, keeps what
/// [`heap_progress`] says and extends it to page `k`.
#[verifier::spinoff_prover]
#[verifier::rlimit(100)]
proof fn lemma_heap_step(
    pt0: Level4PageTable,
    pt1: Level4PageTable,
    al0: FrameAllocator,
    al1: FrameAllocator,
    al2: FrameAllocator,
    before: FrameAllocator,
    k: int,
    f: u64,
)
    requires
        0 <= k < 8192,
        heap_progress(pt0, al0, before, k),
        f < MAX_FRAMES,
        !al0.allocated()[f as int],
        al1.allocated() == al0.allocated().update(f as int, true),
        mapped_along(pt0, pt1, heap_addr(k), PRESENT_BIT | WRITABLE_BIT),
        fresh_tables(pt0, pt1, heap_addr(k), al1, al2),
        pt1.l1_entry(heap_addr(k)) == ((f * 4096) as u64 | (PRESENT_BIT | WRITABLE_BIT)),
        entry_frame(pt1.l1_entry(heap_addr(k))) == f,
        pt1.walk(heap_addr(k)) is Ok,
        forall|g: u64| AllocateFrame::in_use(&al1, g) ==> #[trigger] AllocateFrame::in_use(&al2, g),
    ensures
        heap_progress(pt1, al2, before, k + 1),
{
    lemma_heap_indices(k);
    let ak = heap_addr(k);
    let e4 = pt0.root()[509];
    let e3 = if e4 == 0 { 0u64 } else { pt0.l3_entry(ak) };
    let e2 = if e3 == 0 { 0u64 } else { pt0.l2_entry(ak) };
    let t3 = entry_frame(e4);
    let t2 = entry_frame(pt0.table(t3)[0]);
    let c = (k - 1) / 512;
    let f3 = entry_frame(pt1.root()[509]);
    let f2 = entry_frame(pt1.l3_entry(ak));
    let f1 = entry_frame(pt1.l2_entry(ak));
    assert(pt1.l3_entry(ak) == pt1.table(f3)[0]);
    assert(pt1.l2_entry(ak) == pt1.table(f2)[k / 512]);
    assert(pt1.l1_entry(ak) == pt1.table(f1)[k % 512]);
    // The allocators only add frames in use; `f` was free and now is not.
    al0.lemma_allocated_len();
    al1.lemma_allocated_len();
    assert forall|g: u64| AllocateFrame::in_use(&al0, g) implies #[trigger] AllocateFrame::in_use(&al1, g) by {
        if g < MAX_FRAMES {
            assert(al1.allocated()[g as int]);
        }
    }
    assert forall|g: u64| AllocateFrame::in_use(&al0, g) implies #[trigger] AllocateFrame::in_use(&al2, g) by {
        assert(AllocateFrame::in_use(&al1, g));
    }
    assert(AllocateFrame::in_use(&al1, f)) by {
        assert(al1.allocated()[f as int]);
    }
    assert(!AllocateFrame::in_use(&al0, f));
    assert(!AllocateFrame::in_use(&before, f)) by {
        if AllocateFrame::in_use(&before, f) {
            assert(AllocateFrame::in_use(&al0, f));
        }
    }
    if k > 0 {
        crate::paging::lemma_present_nonzero(e4);
        crate::paging::lemma_present_nonzero(pt0.table(t3)[0]);
        assert(e3 == pt0.table(t3)[0]);
        assert(f3 == t3);
        assert(f2 == t2);
        assert(c >= 0);
        if k % 512 != 0 {
            assert(k / 512 == c);
            crate::paging::lemma_present_nonzero(pt0.table(t2)[c]);
            assert(e2 == pt0.table(t2)[k / 512]);
            assert(f1 == entry_frame(pt0.table(t2)[c]));
        } else {
            assert(k / 512 == c + 1);
            assert(e2 == 0);
        }
    } else {
        assert(e3 == 0 && e2 == 0);
    }
    // The tables on the way.
    assert(heap_tables(pt1, al2, k + 1)) by {
        assert((k + 1 - 1) / 512 == k / 512);
        assert forall|m: int| 0 <= m <= k / 512 implies entry_is_present(#[trigger] pt1.table(f2)[m])
            && !entry_is_huge(pt1.table(f2)[m]) && entry_frame(pt1.table(f2)[m]) != f3 && entry_frame(
            pt1.table(f2)[m],
        ) != f2 && AllocateFrame::in_use(&al2, entry_frame(pt1.table(f2)[m])) by {
            if m < k / 512 {
                assert(k > 0 && m <= c);
                assert(pt1.table(f2)[m] == pt0.table(t2)[m]);
                assert(AllocateFrame::in_use(&al0, entry_frame(pt0.table(t2)[m])));
            }
        }
        assert forall|m: int| k / 512 < m < 512 implies #[trigger] pt1.table(f2)[m] == 0 by {
            if e3 != 0 {
                assert(pt1.table(f2)[m] == pt0.table(t2)[m]);
                assert(m > c);
            }
        }
        assert forall|m1: int, m2: int| 0 <= m1 < m2 <= k / 512 implies entry_frame(
            #[trigger] pt1.table(f2)[m1],
        ) != entry_frame(#[trigger] pt1.table(f2)[m2]) by {
            assert(k > 0 && m1 <= c);
            assert(pt1.table(f2)[m1] == pt0.table(t2)[m1]);
            assert(AllocateFrame::in_use(&al0, entry_frame(pt0.table(t2)[m1])));
            if m2 < k / 512 {
                assert(pt1.table(f2)[m2] == pt0.table(t2)[m2]);
            } else if e2 == 0 {
                assert(AllocateFrame::in_use(&al1, entry_frame(pt0.table(t2)[m1])));
            }
        }
        assert forall|i: int| (k + 1) % 512 != 0 && (k + 1) % 512 <= i < 512 implies #[trigger] pt1.table(
            entry_frame(pt1.table(f2)[k / 512]),
        )[i] == 0 by {
            assert(i != k % 512);
            if e2 != 0 {
                assert(k % 512 != 0 && k % 512 <= i);
            }
        }
        if e4 == 0 {
            assert(AllocateFrame::in_use(&al2, f3));
        }
        if e3 == 0 {
            assert(AllocateFrame::in_use(&al2, f2));
        }
    }
    // The pages mapped before stay as they were.
    assert forall|j: int| 0 <= j < k implies heap_leaf(pt1, j) == heap_leaf(pt0, j) && pt1.walk(
        heap_addr(j),
    ) == Ok::<u64, TranslationError>(heap_leaf(pt1, j)) by {
        lemma_heap_indices(j);
        let aj = heap_addr(j);
        assert(heap_page_mapped(pt0, before, j));
        assert(pt1.l3_entry(aj) == pt1.l3_entry(ak));
        assert(j / 512 <= c);
        let g = entry_frame(pt0.table(t2)[j / 512]);
        if j / 512 == k / 512 {
            assert(pt1.l2_entry(aj) == pt1.l2_entry(ak));
            assert(j % 512 != k % 512);
            assert(k % 512 != 0);
            assert(pt1.table(f1)[j % 512] == pt0.table(f1)[j % 512]);
        } else {
            assert(pt1.table(f2)[j / 512] == pt0.table(t2)[j / 512]);
            assert(AllocateFrame::in_use(&al0, g));
            if e2 == 0 {
                assert(AllocateFrame::in_use(&al1, g));
            } else {
                assert(f1 == entry_frame(pt0.table(t2)[k / 512]));
            }
            assert(g != f1);
            assert(pt1.table(g) == pt0.table(g));
        }
    }
    assert(heap_mapped(pt1, before, k + 1)) by {
        assert forall|j: int| 0 <= j < k + 1 implies #[trigger] heap_page_mapped(pt1, before, j) by {
            if j < k {
                assert(heap_page_mapped(pt0, before, j));
            } else {
                assert(pt1.walk(ak) == Ok::<u64, TranslationError>(pt1.l1_entry(ak)));
                assert(!AllocateFrame::in_use(&before, f));
            }
        }
        assert forall|j1: int, j2: int| 0 <= j1 < j2 < k + 1 implies entry_frame(#[trigger] heap_leaf(pt1, j1))
            != entry_frame(#[trigger] heap_leaf(pt1, j2)) by {
            if j2 == k {
                assert(AllocateFrame::in_use(&al0, entry_frame(heap_leaf(pt0, j1))));
            } else {
                assert(heap_mapped(pt0, before, k));
            }
        }
    }
    assert forall|j: int| 0 <= j < k + 1 implies AllocateFrame::in_use(&al2, entry_frame(#[trigger] heap_leaf(pt1, j))) by {
        if j < k {
            assert(AllocateFrame::in_use(&al0, entry_frame(heap_leaf(pt0, j))));
        } else {
            assert(AllocateFrame::in_use(&al1, f));
        }
    }
}

/// With the tables on the way to the heap as [`heap_tables`] says, the way to page `k` meets no
/// huge page, its level 1 entry is unused where its tables exist, and its tables are held in
/// frames that `alloc` has in use, and so does any allocator `later` that keeps what `alloc`
/// has in use.
proof fn lemma_heap_map_ready(pt: Level4PageTable, alloc: FrameAllocator, later: FrameAllocator, k: int)
    requires
        0 <= k < 8192,
        heap_tables(pt, alloc, k),
        forall|g: u64| AllocateFrame::in_use(&alloc, g) ==> #[trigger] AllocateFrame::in_use(&later, g),
    ensures
        !pt.reaches_huge_page(heap_addr(k)),
        !(pt.tables_exist(heap_addr(k)) && pt.l1_entry(heap_addr(k)) != 0),
        path_in_use(pt, heap_addr(k), later),
{
    lemma_heap_indices(k);
    let a = heap_addr(k);
    if k > 0 {
        let t3 = entry_frame(pt.root()[509]);
        let t2 = entry_frame(pt.table(t3)[0]);
        assert(pt.l3_entry(a) == pt.table(t3)[0]);
        assert(pt.l2_entry(a) == pt.table(t2)[k / 512]);
        assert(AllocateFrame::in_use(&later, t3));
        assert(AllocateFrame::in_use(&later, t2));
        if k % 512 != 0 {
            assert(k / 512 == (k - 1) / 512);
            assert(pt.l1_entry(a) == pt.table(entry_frame(pt.table(t2)[(k - 1) / 512]))[k % 512]);
            assert(AllocateFrame::in_use(&later, entry_frame(pt.table(t2)[k / 512])));
        } else {
            assert(k / 512 > (k - 1) / 512);
            assert(pt.table(t2)[k / 512] == 0);
        }
    }
}

} // verus!
