//! The kernel's physical frame allocator: one bit per frame, set when the frame is in use.

use vstd::prelude::*;
use crate::bits::{lemma_clear_bit, lemma_first_clear_bit, lemma_full_word, lemma_set_bit, u64_bit};
use crate::boot_info::{MemoryMap, MemoryRegion, MemoryRegionKind};
use crate::memory_types::{div_ceil, is_physical_addr, Frame, FrameAllocator as AllocateFrame, VirtualAddress};

verus! {

/// The most physical memory the allocator manages: 1 GiB.
pub const MAX_PHYSICAL_MEMORY: usize = 1024 * 1024 * 1024;
/// The number of frames the allocator manages.
pub const MAX_FRAMES: usize = 262144;
/// The number of 64-bit words in the bitmap.
pub const BITMAP_LEN: usize = 4096;

/// Whether frame `f` is marked in use in `bitmap`.
pub open spec fn frame_bit(bitmap: Seq<u64>, f: int) -> bool {
    u64_bit(bitmap[f / 64], (f % 64) as u64)
}

/// The number of frames in `lo..hi` that `alloc` marks free.
pub open spec fn free_count(alloc: Seq<bool>, lo: int, hi: int) -> nat
    decreases hi - lo,
{
    if hi <= lo {
        0
    } else {
        free_count(alloc, lo, hi - 1) + if alloc[hi - 1] { 0nat } else { 1nat }
    }
}

/// Why the allocator refused a request.
#[derive(Clone, Copy, Debug, PartialEq, Eq, Structural)]
pub enum FrameAllocatorError {
    OutOfMemory,
    InvalidFrame,
}

/// A bitmap allocator of physical frames.
pub struct FrameAllocator {
    bitmap: Vec<u64>,
    total_frames: usize,
    free_frames: usize,
    next_free_hint: usize,
}

impl FrameAllocator {
    /// The bitmap has one bit per managed frame, and the hint names a frame or the end.
    pub closed spec fn wf(&self) -> bool {
        &&& self.bitmap@.len() == BITMAP_LEN
        &&& self.next_free_hint <= MAX_FRAMES
    }

    /// For each managed frame, whether it is in use.
    pub closed spec fn allocated(&self) -> Seq<bool> {
        Seq::new(MAX_FRAMES as nat, |f: int| frame_bit(self.bitmap@, f))
    }

    /// The allocator's count of free frames.
    pub closed spec fn free_frames_spec(&self) -> nat {
        self.free_frames as nat
    }

    /// The allocator's count of frames the memory map offered.
    pub closed spec fn total_frames_spec(&self) -> nat {
        self.total_frames as nat
    }

    /// The frame from which the next search starts.
    pub closed spec fn next_free_hint_spec(&self) -> nat {
        self.next_free_hint as nat
    }

    /// An allocator that manages no memory yet: every bit clear, both counts zero.
    pub fn new() -> (r: Self)
        ensures
            r.wf(),
            r.allocated() == Seq::new(MAX_FRAMES as nat, |f: int| false),
            r.free_frames_spec() == 0,
            r.total_frames_spec() == 0,
            r.next_free_hint_spec() == 0,
    {
        let mut bitmap: Vec<u64> = Vec::new();
        let mut i: usize = 0;
        while i < BITMAP_LEN
            invariant
                i <= BITMAP_LEN,
                bitmap@.len() == i,
                forall|j: int| 0 <= j < i ==> bitmap@[j] == 0,
            decreases BITMAP_LEN - i,
        {
            bitmap.push(0);
            i = i + 1;
        }
        let r = FrameAllocator { bitmap, total_frames: 0, free_frames: 0, next_free_hint: 0 };
        assert forall|f: int| 0 <= f < MAX_FRAMES implies !frame_bit(r.bitmap@, f) by {
            assert(r.bitmap@[f / 64] == 0);
            assert(0u64 & (1u64 << ((f % 64) as u64)) == 0) by (bit_vector);
        }
        assert(r.allocated() =~= Seq::new(MAX_FRAMES as nat, |f: int| false));
        r
    }

    /// Whether frame `frame_num` is in use.
    pub fn is_allocated(&self, frame_num: usize) -> (r: bool)
        requires
            self.wf(),
            frame_num < MAX_FRAMES,
        ensures
            r == self.allocated()[frame_num as int],
    {
        let word_idx = frame_num / 64;
        let bit_idx = frame_num % 64;
        (self.bitmap[word_idx] & (1u64 << (bit_idx as u64))) != 0
    }

    /// Mark frame `frame_num` as in use.
    pub fn mark_used(&mut self, frame_num: usize)
        requires
            old(self).wf(),
            frame_num < MAX_FRAMES,
        ensures
            final(self).wf(),
            final(self).allocated() == old(self).allocated().update(frame_num as int, true),
            final(self).free_frames_spec() == old(self).free_frames_spec(),
            final(self).total_frames_spec() == old(self).total_frames_spec(),
            final(self).next_free_hint_spec() == old(self).next_free_hint_spec(),
    {
        let word_index = frame_num / 64;
        let bit_index = (frame_num % 64) as u64;
        let old_word = self.bitmap[word_index];
        proof {
            lemma_set_bit(old_word, bit_index);
        }
        self.bitmap.set(word_index, old_word | (1u64 << bit_index));
        proof {
            self.lemma_one_word_changed(*old(self), frame_num as int, true);
        }
    }

    /// Mark frame `frame_num` as free.
    pub fn mark_free(&mut self, frame_num: usize)
        requires
            old(self).wf(),
            frame_num < MAX_FRAMES,
        ensures
            final(self).wf(),
            final(self).allocated() == old(self).allocated().update(frame_num as int, false),
            final(self).free_frames_spec() == old(self).free_frames_spec(),
            final(self).total_frames_spec() == old(self).total_frames_spec(),
            final(self).next_free_hint_spec() == old(self).next_free_hint_spec(),
    {
        let word_index = frame_num / 64;
        let bit_index = (frame_num % 64) as u64;
        let old_word = self.bitmap[word_index];
        proof {
            lemma_clear_bit(old_word, bit_index);
        }
        self.bitmap.set(word_index, old_word & !(1u64 << bit_index));
        proof {
            self.lemma_one_word_changed(*old(self), frame_num as int, false);
        }
    }

    /// When only the word of frame `f` changed, and within it only the bit of `f`
    /// (which is now `value`), only `f`'s entry of the view changed.
    proof fn lemma_one_word_changed(&self, prev: Self, f: int, value: bool)
        requires
            prev.bitmap@.len() == BITMAP_LEN,
            self.bitmap@.len() == BITMAP_LEN,
            0 <= f < MAX_FRAMES,
            forall|w: int| 0 <= w < BITMAP_LEN && w != f / 64 ==> self.bitmap@[w] == prev.bitmap@[w],
            u64_bit(self.bitmap@[f / 64], (f % 64) as u64) == value,
            forall|c: u64|
                c < 64 && c != (f % 64) as u64 ==> #[trigger] u64_bit(self.bitmap@[f / 64], c) == u64_bit(
                    prev.bitmap@[f / 64],
                    c,
                ),
        ensures
            self.allocated() == prev.allocated().update(f, value),
    {
        assert forall|g: int| 0 <= g < MAX_FRAMES implies #[trigger] self.allocated()[g]
            == prev.allocated().update(f, value)[g] by {
            if g / 64 != f / 64 {
            } else if g != f {
                assert((g % 64) as u64 != (f % 64) as u64);
            }
        }
        assert(self.allocated() =~= prev.allocated().update(f, value));
    }
}


/// Every frame in `lo..hi` is in use.
pub open spec fn all_allocated(alloc: Seq<bool>, lo: int, hi: int) -> bool {
    forall|g: int| lo <= g < hi ==> #[trigger] alloc[g]
}

/// The first frame a memory region offers: its base rounded up to a frame boundary.
pub open spec fn region_first_frame(region: MemoryRegion) -> int {
    if region.base % 4096 == 0 {
        region.base as int / 4096
    } else {
        region.base as int / 4096 + 1
    }
}

/// The frame just past what a memory region offers: its end rounded down.
pub open spec fn region_last_frame(region: MemoryRegion) -> int {
    (region.base + region.size) / 4096
}

/// Whether region `region` offers frame `f` to the allocator.
pub open spec fn region_offers(region: MemoryRegion, f: int) -> bool {
    &&& region.kind == MemoryRegionKind::Free
    &&& region_first_frame(region) <= f < region_last_frame(region)
}

/// The number of managed frames that the region offers.
pub open spec fn region_frame_count(region: MemoryRegion) -> nat {
    let lo = region_first_frame(region);
    let hi = if region_last_frame(region) < MAX_FRAMES { region_last_frame(region) } else { MAX_FRAMES as int };
    if region.kind == MemoryRegionKind::Free && lo < hi {
        (hi - lo) as nat
    } else {
        0
    }
}

/// The sum of `region_frame_count` over the first `n` regions.
pub open spec fn regions_frame_count(regions: Seq<MemoryRegion>, n: int) -> nat
    decreases n,
{
    if n <= 0 {
        0
    } else {
        regions_frame_count(regions, n - 1) + region_frame_count(regions[n - 1])
    }
}

/// Whether a region can be read without the arithmetic overflowing, and lies in physical memory.
pub open spec fn region_in_physical_memory(region: MemoryRegion) -> bool {
    &&& region.base + region.size <= usize::MAX
    &&& is_physical_addr(region.base as u64)
    &&& is_physical_addr((region.base + region.size) as u64)
}

/// `after` is `before` once frame `f` was handed out: the first free frame at or after the word
/// of the hint, else the first free one before it.
pub open spec fn allocation_of(before: FrameAllocator, after: FrameAllocator, f: int) -> bool {
    let h = (before.next_free_hint_spec() / 64) as int * 64;
    &&& before.free_frames_spec() > 0
    &&& 0 <= f < MAX_FRAMES
    &&& !before.allocated()[f]
    &&& ((h <= f && all_allocated(before.allocated(), h, f)) || (f < h && all_allocated(
        before.allocated(),
        h,
        MAX_FRAMES as int,
    ) && all_allocated(before.allocated(), 0, f)))
    &&& after.allocated() == before.allocated().update(f, true)
    &&& after.free_frames_spec() == before.free_frames_spec() - 1
    &&& after.total_frames_spec() == before.total_frames_spec()
    &&& after.next_free_hint_spec() == f + 1
}

/// `after` is `before` once the frame `f`, which was in use, was taken back.
pub open spec fn release_of(before: FrameAllocator, after: FrameAllocator, f: int) -> bool {
    &&& after.allocated() == before.allocated().update(f, false)
    &&& after.free_frames_spec() == before.free_frames_spec() + 1
    &&& after.total_frames_spec() == before.total_frames_spec()
    &&& after.next_free_hint_spec() == if f < before.next_free_hint_spec() {
        f as nat
    } else {
        before.next_free_hint_spec()
    }
}

/// Handing out a frame and taking it back leaves the same frames in use and the same counts
/// of free and total frames.
pub proof fn law_allocate_then_deallocate(
    before: FrameAllocator,
    mid: FrameAllocator,
    after: FrameAllocator,
    f: int,
)
    requires
        allocation_of(before, mid, f),
        release_of(mid, after, f),
    ensures
        after.allocated() == before.allocated(),
        after.free_frames_spec() == before.free_frames_spec(),
        after.total_frames_spec() == before.total_frames_spec(),
{
    assert(after.allocated() =~= before.allocated());
}

impl FrameAllocator {
    /// There is one entry per managed frame.
    pub proof fn lemma_allocated_len(&self)
        ensures
            self.allocated().len() == MAX_FRAMES,
    {
    }

    /// The number of free frames.
    pub fn free_frames(&self) -> (r: usize)
        ensures
            r == self.free_frames_spec(),
    {
        self.free_frames
    }

    /// The number of frames the memory map offered.
    pub fn total_frames(&self) -> (r: usize)
        ensures
            r == self.total_frames_spec(),
    {
        self.total_frames
    }

    /// Hand out a free frame: the first free one at or after the word of the hint,
    /// else the first free one before it.
    pub fn allocate(&mut self) -> (r: Result<Frame, FrameAllocatorError>)
        requires
            old(self).wf(),
        ensures
            final(self).wf(),
            match r {
                Ok(frame) => allocation_of(*old(self), *final(self), frame@ as int),
                Err(e) => {
                    &&& e == FrameAllocatorError::OutOfMemory
                    &&& (old(self).free_frames_spec() == 0 || all_allocated(
                        old(self).allocated(),
                        0,
                        MAX_FRAMES as int,
                    ))
                    &&& *final(self) == *old(self)
                },
            },
    {
        if self.free_frames == 0 {
            return Err(FrameAllocatorError::OutOfMemory);
        }
        let start_word = self.next_free_hint / 64;
        let ghost h = start_word * 64;
        let mut word_index = start_word;
        while word_index < BITMAP_LEN
            invariant
                self.wf(),
                *self == *old(self),
                start_word <= word_index <= BITMAP_LEN,
                start_word == old(self).next_free_hint_spec() / 64,
                h == start_word * 64,
                self.free_frames > 0,
                all_allocated(self.allocated(), h, word_index * 64),
            decreases BITMAP_LEN - word_index,
        {
            let word = self.bitmap[word_index];
            if word != !0u64 {
                proof {
                    lemma_first_clear_bit(word);
                    self.lemma_word_prefix(word_index as int, (!word).trailing_zeros() as int);
                }
                let free_bit = (!word).trailing_zeros() as usize;
                let frame_num = word_index * 64 + free_bit;
                proof {
                    assert(frame_num / 64 == word_index && frame_num % 64 == free_bit);
                }
                self.mark_used(frame_num);
                self.free_frames = self.free_frames - 1;
                self.next_free_hint = frame_num + 1;
                return Ok(Frame::new(frame_num as u64));
            }
            proof {
                lemma_full_word(word);
                self.lemma_word_prefix(word_index as int, 64);
            }
            word_index = word_index + 1;
        }
        let mut word_index: usize = 0;
        while word_index < start_word
            invariant
                self.wf(),
                *self == *old(self),
                start_word <= BITMAP_LEN,
                word_index <= start_word,
                start_word == old(self).next_free_hint_spec() / 64,
                h == start_word * 64,
                self.free_frames > 0,
                all_allocated(self.allocated(), h, MAX_FRAMES as int),
                all_allocated(self.allocated(), 0, word_index * 64),
            decreases start_word - word_index,
        {
            let word = self.bitmap[word_index];
            if word != !0u64 {
                proof {
                    lemma_first_clear_bit(word);
                    self.lemma_word_prefix(word_index as int, (!word).trailing_zeros() as int);
                }
                let free_bit = (!word).trailing_zeros() as usize;
                let frame_num = word_index * 64 + free_bit;
                proof {
                    assert(frame_num / 64 == word_index && frame_num % 64 == free_bit);
                }
                self.mark_used(frame_num);
                self.free_frames = self.free_frames - 1;
                self.next_free_hint = frame_num + 1;
                return Ok(Frame::new(frame_num as u64));
            }
            proof {
                lemma_full_word(word);
                self.lemma_word_prefix(word_index as int, 64);
            }
            word_index = word_index + 1;
        }
        Err(FrameAllocatorError::OutOfMemory)
    }

    /// The frames of word `w` below bit `n` are in use when those bits are set.
    proof fn lemma_word_prefix(&self, w: int, n: int)
        requires
            self.wf(),
            0 <= w < BITMAP_LEN,
            0 <= n <= 64,
            forall|c: u64| c < n ==> #[trigger] u64_bit(self.bitmap@[w], c),
        ensures
            all_allocated(self.allocated(), w * 64, w * 64 + n),
    {
        assert forall|g: int| w * 64 <= g < w * 64 + n implies #[trigger] self.allocated()[g] by {
            assert(g / 64 == w);
            assert(g % 64 == g - w * 64);
            assert(u64_bit(self.bitmap@[w], (g - w * 64) as u64));
        }
    }

    /// Give back `frame`. Freeing a frame that is already free changes nothing.
    pub fn deallocate(&mut self, frame: Frame) -> (r: Result<(), FrameAllocatorError>)
        requires
            old(self).wf(),
            old(self).free_frames_spec() < usize::MAX,
        ensures
            final(self).wf(),
            frame@ >= MAX_FRAMES ==> r == Err::<(), FrameAllocatorError>(FrameAllocatorError::InvalidFrame)
                && *final(self) == *old(self),
            frame@ < MAX_FRAMES && !old(self).allocated()[frame@ as int] ==> r == Ok::<
                (),
                FrameAllocatorError,
            >(()) && *final(self) == *old(self),
            frame@ < MAX_FRAMES && old(self).allocated()[frame@ as int] ==> r == Ok::<
                (),
                FrameAllocatorError,
            >(()) && release_of(*old(self), *final(self), frame@ as int),
    {
        let number = frame.number();
        if number >= MAX_FRAMES as u64 {
            return Err(FrameAllocatorError::InvalidFrame);
        }
        let frame_num = number as usize;
        if !self.is_allocated(frame_num) {
            return Ok(());
        }
        self.mark_free(frame_num);
        self.free_frames = self.free_frames + 1;
        if frame_num < self.next_free_hint {
            self.next_free_hint = frame_num;
        }
        Ok(())
    }
}


impl FrameAllocator {
    /// Take the free regions of `memory_map` as the memory to manage: every frame that a
    /// free region holds whole becomes free, every other frame is in use, and both counts
    /// become the number of frames offered.
    pub fn init(&mut self, memory_map: &MemoryMap)
        requires
            old(self).wf(),
            forall|i: int|
                0 <= i < memory_map.regions@.len() && (#[trigger] memory_map.regions@[i]).kind
                    == MemoryRegionKind::Free ==> region_in_physical_memory(memory_map.regions@[i]),
            regions_frame_count(memory_map.regions@, memory_map.regions@.len() as int) <= usize::MAX,
        ensures
            final(self).wf(),
            forall|f: int|
                0 <= f < MAX_FRAMES ==> #[trigger] final(self).allocated()[f] == !(exists|i: int|
                    0 <= i < memory_map.regions@.len() && region_offers(
                        #[trigger] memory_map.regions@[i],
                        f,
                    )),
            final(self).total_frames_spec() == regions_frame_count(
                memory_map.regions@,
                memory_map.regions@.len() as int,
            ),
            final(self).free_frames_spec() == final(self).total_frames_spec(),
            final(self).next_free_hint_spec() == 0,
    {
        let mut w: usize = 0;
        while w < BITMAP_LEN
            invariant
                self.bitmap@.len() == BITMAP_LEN,
                self.next_free_hint <= MAX_FRAMES,
                w <= BITMAP_LEN,
                forall|j: int| 0 <= j < w ==> self.bitmap@[j] == !0u64,
            decreases BITMAP_LEN - w,
        {
            self.bitmap.set(w, !0u64);
            w = w + 1;
        }
        self.total_frames = 0;
        self.free_frames = 0;
        assert forall|f: int| 0 <= f < MAX_FRAMES implies #[trigger] self.allocated()[f] by {
            lemma_full_word(self.bitmap@[f / 64]);
        }
        let regions = &memory_map.regions;
        let mut i: usize = 0;
        while i < regions.len()
            invariant
                self.wf(),
                i <= regions@.len(),
                regions@ == memory_map.regions@,
                forall|k: int| 0 <= k < regions@.len() && (#[trigger] regions@[k]).kind == MemoryRegionKind::Free
                    ==> region_in_physical_memory(regions@[k]),
                regions_frame_count(regions@, regions@.len() as int) <= usize::MAX,
                self.total_frames == regions_frame_count(regions@, i as int),
                self.free_frames == self.total_frames,
                forall|f: int|
                    0 <= f < MAX_FRAMES ==> #[trigger] self.allocated()[f] == !(exists|k: int|
                        0 <= k < i && region_offers(#[trigger] regions@[k], f)),
            decreases regions@.len() - i,
        {
            let region = regions[i];
            proof {
                self.lemma_count_prefix_bound(regions@, i as int);
            }
            if region.kind == MemoryRegionKind::Free {
                let start_frame = Frame::containing_addr(VirtualAddress::new(region.base as u64));
                let end_addr = region.base + region.size;
                let end_frame = Frame::containing_addr(VirtualAddress::new(end_addr as u64));
                let first_frame = if VirtualAddress::new(region.base as u64).is_page_aligned() {
                    start_frame.number()
                } else {
                    start_frame.number() + 1
                };
                let last_frame = end_frame.number();
                proof {
                    assert(first_frame == region_first_frame(region));
                    assert(last_frame == region_last_frame(region));
                }
                let mut frame_num = first_frame;
                let ghost base_total = self.total_frames as int;
                while frame_num < last_frame
                    invariant
                        self.wf(),
                        region == regions@[i as int],
                        i < regions@.len(),
                        region.kind == MemoryRegionKind::Free,
                        first_frame == region_first_frame(region),
                        last_frame == region_last_frame(region),
                        first_frame <= frame_num <= last_frame || (first_frame > last_frame && frame_num == first_frame),
                        base_total == regions_frame_count(regions@, i as int),
                        base_total + region_frame_count(region) <= usize::MAX,
                        self.total_frames == base_total + (if frame_num < MAX_FRAMES { frame_num } else { MAX_FRAMES as u64 }) - (if first_frame < MAX_FRAMES { first_frame } else { MAX_FRAMES as u64 }),
                        self.free_frames == self.total_frames,
                        forall|f: int|
                            0 <= f < MAX_FRAMES ==> #[trigger] self.allocated()[f] == !((exists|k: int|
                                0 <= k < i && region_offers(#[trigger] regions@[k], f)) || (first_frame <= f < frame_num)),
                    decreases last_frame - frame_num,
                {
                    if frame_num < MAX_FRAMES as u64 {
                        self.mark_free(frame_num as usize);
                        self.total_frames = self.total_frames + 1;
                        self.free_frames = self.free_frames + 1;
                    }
                    frame_num = frame_num + 1;
                }
                proof {
                    assert forall|f: int| 0 <= f < MAX_FRAMES implies #[trigger] self.allocated()[f] == !(exists|k: int|
                        0 <= k < i + 1 && region_offers(#[trigger] regions@[k], f)) by {
                        if first_frame <= f < frame_num {
                            assert(region_offers(regions@[i as int], f));
                        }
                        if exists|k: int| 0 <= k < i + 1 && region_offers(#[trigger] regions@[k], f) {
                            let k = choose|k: int| 0 <= k < i + 1 && region_offers(#[trigger] regions@[k], f);
                            if k == i {
                            }
                        }
                    }
                }
            } else {
                proof {
                    assert forall|f: int| 0 <= f < MAX_FRAMES implies #[trigger] self.allocated()[f] == !(exists|k: int|
                        0 <= k < i + 1 && region_offers(#[trigger] regions@[k], f)) by {
                        if exists|k: int| 0 <= k < i + 1 && region_offers(#[trigger] regions@[k], f) {
                            let k = choose|k: int| 0 <= k < i + 1 && region_offers(#[trigger] regions@[k], f);
                            if k == i {
                            }
                        }
                    }
                }
            }
            i = i + 1;
        }
        let ghost before = *self;
        self.next_free_hint = 0;
        assert(self.allocated() =~= before.allocated());
    }

    /// The running sum is monotone, so every prefix fits when the whole does.
    proof fn lemma_count_prefix_bound(&self, regions: Seq<MemoryRegion>, i: int)
        requires
            0 <= i < regions.len(),
        ensures
            regions_frame_count(regions, i) + region_frame_count(regions[i]) <= regions_frame_count(
                regions,
                regions.len() as int,
            ),
        decreases regions.len() - i,
    {
        if i + 1 < regions.len() {
            self.lemma_count_prefix_bound(regions, i + 1);
        }
    }
}


/// `a` lowered by `b`, stopping at zero.
pub open spec fn saturating_sub(a: nat, b: nat) -> nat {
    if a >= b {
        (a - b) as nat
    } else {
        0
    }
}

/// `a` capped at the number of managed frames.
pub open spec fn cap_frame(a: int) -> int {
    if a < MAX_FRAMES {
        a
    } else {
        MAX_FRAMES as int
    }
}

impl FrameAllocator {
    /// Mark the frames that `size` bytes from `base` touch as in use, and lower the free
    /// count (not below zero) by the number of them that were free.
    pub fn reserve_range(&mut self, base: VirtualAddress, size: usize)
        requires
            old(self).wf(),
            is_physical_addr(base@),
        ensures
            final(self).wf(),
            ({
                let lo = base@ / 4096;
                let hi = base@ / 4096 + div_ceil(size as int, 4096);
                &&& forall|f: int|
                    0 <= f < MAX_FRAMES ==> #[trigger] final(self).allocated()[f] == (old(
                        self,
                    ).allocated()[f] || (lo <= f < hi))
                &&& final(self).free_frames_spec() == saturating_sub(
                    old(self).free_frames_spec(),
                    free_count(old(self).allocated(), cap_frame(lo as int), cap_frame(hi)),
                )
            }),
            final(self).total_frames_spec() == old(self).total_frames_spec(),
            final(self).next_free_hint_spec() == old(self).next_free_hint_spec(),
    {
        let start_frame = Frame::containing_addr(base).number();
        let frame_count = crate::paging::pages_for_size(size);
        let ghost lo = cap_frame(start_frame as int);
        let ghost old_alloc = self.allocated();
        let ghost old_free = self.free_frames as nat;
        let mut i: usize = 0;
        while i < frame_count
            invariant
                self.wf(),
                start_frame == base@ / 4096,
                start_frame < 0x8_0000_0000,
                frame_count == div_ceil(size as int, 4096),
                i <= frame_count,
                lo == cap_frame(start_frame as int),
                old_alloc == old(self).allocated(),
                old_free == old(self).free_frames_spec(),
                forall|f: int|
                    0 <= f < MAX_FRAMES ==> #[trigger] self.allocated()[f] == (old_alloc[f] || (
                    start_frame <= f < start_frame + i)),
                self.free_frames == saturating_sub(
                    old_free,
                    free_count(old_alloc, lo, cap_frame(start_frame + i)),
                ),
                self.total_frames == old(self).total_frames,
                self.next_free_hint == old(self).next_free_hint,
            decreases frame_count - i,
        {
            let frame_num = start_frame + i as u64;
            proof {
                if frame_num < MAX_FRAMES {
                    assert(free_count(old_alloc, lo, frame_num + 1) == free_count(old_alloc, lo, frame_num as int) + if old_alloc[frame_num as int] { 0nat } else { 1nat });
                }
            }
            if frame_num < MAX_FRAMES as u64 && !self.is_allocated(frame_num as usize) {
                self.mark_used(frame_num as usize);
                if self.free_frames > 0 {
                    self.free_frames = self.free_frames - 1;
                }
            }
            i = i + 1;
        }
    }
}


impl AllocateFrame for FrameAllocator {
    open spec fn inv(&self) -> bool {
        self.wf()
    }

    /// A frame beyond those managed, or one marked in use.
    open spec fn in_use(&self, f: u64) -> bool {
        f >= MAX_FRAMES || self.allocated()[f as int]
    }

    /// No frame counted free, or every frame in use.
    open spec fn exhausted(&self) -> bool {
        self.free_frames_spec() == 0 || all_allocated(self.allocated(), 0, MAX_FRAMES as int)
    }

    /// [`FrameAllocator::allocate`], without the reason for a refusal.
    fn allocate_frame(&mut self) -> (r: Option<Frame>)
        ensures
            old(self).wf() ==> final(self).wf(),
            old(self).wf() ==> (r matches Some(frame) ==> frame@ < MAX_FRAMES && !old(
                self,
            ).allocated()[frame@ as int] && final(self).allocated() == old(self).allocated().update(
                frame@ as int,
                true,
            )),
            old(self).wf() ==> (r is None ==> *final(self) == *old(self)),
            old(self).wf() ==> (r matches Some(frame) ==> allocation_of(*old(self), *final(self), frame@ as int)),
            old(self).wf() ==> (r is None <==> (old(self).free_frames_spec() == 0 || all_allocated(
                old(self).allocated(),
                0,
                MAX_FRAMES as int,
            ))),
    {
        if self.bitmap.len() != BITMAP_LEN || self.next_free_hint > MAX_FRAMES {
            return None;
        }
        let ghost before = *self;
        match self.allocate() {
            Ok(frame) => {
                proof {
                    assert(!before.allocated()[frame@ as int]);
                }
                Some(frame)
            },
            Err(_) => None,
        }
    }
}

} // verus!
