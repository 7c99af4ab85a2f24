//! Addresses, pages and frames, and the constants that relate them.
//!
//! All sizes are in bytes. Physical memory is identity-mapped, so a physical
//! address is a virtual address whose top 17 bits are clear.

use vstd::prelude::*;
use vstd::arithmetic::power2::pow2;
use vstd::bits::low_bits_mask;

verus! {

/// A "kibibyte", or 1,024 bytes.
pub const KIBIBYTE: usize = 1024;
/// A "mebibyte", or 1,024² bytes.
pub const MEBIBYTE: usize = 1024 * 1024;
/// A "gibibyte", or 1,024³ bytes.
pub const GIBIBYTE: usize = 1024 * 1024 * 1024;
/// A "tebibyte", or 1,024⁴ bytes.
pub const TEBIBYTE: u64 = 1024 * 1024 * 1024 * 1024;
/// A "pebibyte", or 1,024⁵ bytes.
pub const PEBIBYTE: u64 = 1024 * 1024 * 1024 * 1024 * 1024;
/// A "kilobyte", or 1,000 bytes.
pub const KILOBYTE: usize = 1000;
/// A "megabyte", or 1,000² bytes.
pub const MEGABYTE: usize = 1000 * 1000;
/// A "gigabyte", or 1,000³ bytes.
pub const GIGABYTE: usize = 1000 * 1000 * 1000;
/// A "terabyte", or 1,000⁴ bytes.
pub const TERABYTE: u64 = 1000 * 1000 * 1000 * 1000;
/// A "petabyte", or 1,000⁵ bytes.
pub const PETABYTE: u64 = 1000 * 1000 * 1000 * 1000 * 1000;

/// 4 KiB, or 4,096 bytes.
pub const PAGE_SIZE: usize = 4096;
/// The number of entries in a page table.
pub const ENTRIES_PER_PAGE_TABLE: usize = 512;
/// The bit width of each page table index.
pub const PAGE_TABLE_INDEX_WIDTH: usize = 9;
/// The bit width of the offset within a page.
pub const PAGE_TABLE_OFFSET_WIDTH: usize = 12;

/// The largest address the machine can express.
pub const MAX_VIRTUAL_ADDR: u64 = 0xFFFF_FFFF_FFFF_FFFF;
/// The bit from which virtual addresses are sign-extended.
pub const VIRTUAL_MEMORY_SHIFT: u64 = 47;
/// `MAX_VIRTUAL_ADDR << VIRTUAL_MEMORY_SHIFT`: the first address of the upper half.
pub const VIRTUAL_MEMORY_OFFSET: u64 = 0xFFFF_8000_0000_0000;
/// The largest address of physical memory that the hardware can name.
pub const MAX_PHYSICAL_ADDR: u64 = 0x000F_FFFF_FFFF_FFFF;

/// The largest level 4 index of an identity-mapped (physical) address:
/// `(1 << (VIRTUAL_MEMORY_SHIFT - L4_INDEX_SHIFT)) - 1`.
pub const MAX_PHYSICAL_L4_INDEX: usize = 255;
pub const USER_STACK_L4_INDEX: usize = 507;
pub const USER_HEAP_L4_INDEX: usize = 508;
pub const KERNEL_HEAP_L4_INDEX: usize = 509;
pub const KERNEL_MAPPING_L4_INDEX: usize = 510;

pub const L1_INDEX_SHIFT: u64 = 12;
pub const L2_INDEX_SHIFT: u64 = 21;
pub const L3_INDEX_SHIFT: u64 = 30;
pub const L4_INDEX_SHIFT: u64 = 39;

/// Rounding up: the least multiple of `b` that is at least `a`, divided by `b`.
pub open spec fn div_ceil(a: int, b: int) -> int {
    (a + b - 1) / b
}

/// The sign-extended form of `addr`: its low 48 bits, with bit 47 copied into
/// the 16 bits above them.
pub open spec fn canonical(addr: u64) -> u64 {
    if addr & 0x0000_8000_0000_0000 == 0 {
        addr & 0x0000_FFFF_FFFF_FFFF
    } else {
        addr | 0xFFFF_0000_0000_0000
    }
}

/// The page table index of `addr` at the level whose index starts at bit `shift`.
pub open spec fn table_index(addr: u64, shift: u64) -> usize {
    ((addr >> shift) % 512) as usize
}

/// The part of memory that an address with the given level 4 index belongs to.
pub open spec fn range_of_l4_index(l4: usize) -> AddressRange {
    if l4 <= MAX_PHYSICAL_L4_INDEX {
        AddressRange::Physical
    } else if l4 == USER_STACK_L4_INDEX {
        AddressRange::UserStack
    } else if l4 == USER_HEAP_L4_INDEX {
        AddressRange::UserHeap
    } else if l4 == KERNEL_HEAP_L4_INDEX {
        AddressRange::KernelHeap
    } else if l4 == KERNEL_MAPPING_L4_INDEX {
        AddressRange::KernelMapping
    } else {
        AddressRange::Invalid
    }
}

/// Whether `addr` is an identity-mapped physical address (below 2^47).
pub open spec fn is_physical_addr(addr: u64) -> bool {
    addr < 0x0000_8000_0000_0000
}

/// `addr` rounded down to a multiple of `align` (a power of two), by masking.
#[verifier::when_used_as_spec(spec_align_down)]
pub fn align_down(addr: usize, align: usize) -> (r: usize)
    requires
        align >= 1,
    ensures
        r == spec_align_down(addr, align),
{
    addr & !(align - 1)
}

pub open spec fn spec_align_down(addr: usize, align: usize) -> usize {
    addr & !((align - 1) as usize)
}

/// `addr` rounded up to a multiple of `align` (a power of two), by masking.
pub fn align_up(addr: usize, align: usize) -> (r: usize)
    requires
        align >= 1,
        addr + align - 1 <= usize::MAX,
    ensures
        r == spec_align_down((addr + align - 1) as usize, align),
{
    (addr + (align - 1)) & !(align - 1)
}

/// For a power-of-two alignment, masking rounds down to the nearest multiple.
pub proof fn lemma_align_down_is_round_down(addr: usize, n: nat)
    requires
        n < usize::BITS,
    ensures
        pow2(n) <= usize::MAX,
        spec_align_down(addr, pow2(n) as usize) == addr - addr % (pow2(n) as usize),
{
    vstd::bits::lemma_usize_pow2_no_overflow(n);
    vstd::bits::lemma_usize_low_bits_mask_is_mod(addr, n);
    let m = (pow2(n) - 1) as usize;
    assert((addr & !m) + (addr & m) == addr) by (bit_vector);
    assert(m == (low_bits_mask(n) as usize));
}

/// Building an address from four table indices and reading its table indices back gives
/// those indices, and the address is page aligned.
pub proof fn law_table_indices_round_trip(l4: usize, l3: usize, l2: usize, l1: usize)
    requires
        l4 < 512,
        l3 < 512,
        l2 < 512,
        l1 < 512,
    ensures
        ({
            let addr = canonical(
                ((l4 as u64) << 39u64) | ((l3 as u64) << 30u64) | ((l2 as u64) << 21u64) | ((l1 as u64)
                    << 12u64),
            );
            &&& table_index(addr, 39) == l4
            &&& table_index(addr, 30) == l3
            &&& table_index(addr, 21) == l2
            &&& table_index(addr, 12) == l1
            &&& addr % 4096 == 0
        }),
{
    let a = l4 as u64;
    let b = l3 as u64;
    let c = l2 as u64;
    let d = l1 as u64;
    let x = (a << 39u64) | (b << 30u64) | (c << 21u64) | (d << 12u64);
    let addr = canonical(x);
    assert(((addr >> 39u64) % 512) == a && ((addr >> 30u64) % 512) == b && ((addr >> 21u64) % 512)
        == c && ((addr >> 12u64) % 512) == d && addr % 4096 == 0) by (bit_vector)
        requires
            a < 512,
            b < 512,
            c < 512,
            d < 512,
            x == (a << 39u64) | (b << 30u64) | (c << 21u64) | (d << 12u64),
            addr == (if x & 0x0000_8000_0000_0000 == 0 {
                x & 0x0000_FFFF_FFFF_FFFF
            } else {
                x | 0xFFFF_0000_0000_0000
            }),
    ;
}

/// The part of memory that an address falls into, decided by its level 4 index.
#[derive(Clone, Copy, Debug, PartialEq, Eq, Structural)]
pub enum AddressRange {
    Physical,
    UserStack,
    UserHeap,
    KernelHeap,
    KernelMapping,
    Invalid,
}

impl Default for AddressRange {
    fn default() -> (r: Self)
        ensures
            r == AddressRange::Invalid,
    {
        AddressRange::Invalid
    }
}

/// An address in virtual memory.
#[derive(Clone, Copy, Debug, PartialEq, Eq, Structural)]
pub struct VirtualAddress(u64);

impl View for VirtualAddress {
    type V = u64;

    closed spec fn view(&self) -> u64 {
        self.0
    }
}

impl VirtualAddress {
    /// The address `addr`, sign-extended from bit 47.
    pub fn new(addr: u64) -> (r: Self)
        ensures
            r@ == canonical(addr),
            is_physical_addr(addr) ==> r@ == addr,
    {
        assert(addr < 0x0000_8000_0000_0000 ==> canonical(addr) == addr) by (bit_vector);
        let low = addr & 0x0000_FFFF_FFFF_FFFF;
        if addr & 0x0000_8000_0000_0000 == 0 {
            VirtualAddress(low)
        } else {
            assert(low | 0xFFFF_0000_0000_0000 == addr | 0xFFFF_0000_0000_0000) by (bit_vector)
                requires
                    low == addr & 0x0000_FFFF_FFFF_FFFF;
            VirtualAddress(low | 0xFFFF_0000_0000_0000)
        }
    }

    /// The address `addr`, taken as it is.
    pub fn new_unchecked(addr: u64) -> (r: Self)
        ensures
            r@ == addr,
    {
        VirtualAddress(addr)
    }

    /// The address that the given page table indices lead to, with a zero offset.
    pub fn from_table_indices(l4_index: usize, l3_index: usize, l2_index: usize, l1_index: usize) -> (r: Self)
        ensures
            r@ == canonical(
                ((l4_index as u64) << 39u64) | ((l3_index as u64) << 30u64) | ((l2_index as u64)
                    << 21u64) | ((l1_index as u64) << 12u64),
            ),
    {
        Self::new(
            ((l4_index as u64) << 39u64) | ((l3_index as u64) << 30u64) | ((l2_index as u64)
                << 21u64) | ((l1_index as u64) << 12u64),
        )
    }

    pub fn to_raw(self) -> (r: u64)
        ensures
            r == self@,
    {
        self.0
    }

    /// The part of memory this address belongs to.
    pub fn range(&self) -> (r: AddressRange)
        ensures
            r == range_of_l4_index(table_index(self@, 39)),
    {
        let l4 = self.l4_index();
        if l4 <= MAX_PHYSICAL_L4_INDEX {
            AddressRange::Physical
        } else if l4 == USER_STACK_L4_INDEX {
            AddressRange::UserStack
        } else if l4 == USER_HEAP_L4_INDEX {
            AddressRange::UserHeap
        } else if l4 == KERNEL_HEAP_L4_INDEX {
            AddressRange::KernelHeap
        } else if l4 == KERNEL_MAPPING_L4_INDEX {
            AddressRange::KernelMapping
        } else {
            AddressRange::Invalid
        }
    }

    /// Whether this is an identity-mapped physical address.
    pub fn is_physical(self) -> (r: bool)
        ensures
            r == is_physical_addr(self@),
    {
        self.0 < 0x0000_8000_0000_0000
    }

    pub fn is_page_aligned(self) -> (r: bool)
        ensures
            r == (self@ % 4096 == 0),
    {
        let a = self.0;
        assert(a & 4095 == a % 4096) by (bit_vector);
        a & 4095 == 0
    }

    /// This address rounded down to the start of its page.
    pub fn page_align_down(self) -> (r: Self)
        ensures
            r@ == self@ - self@ % 4096,
    {
        let a = self.0;
        assert(a & !4095u64 == a - a % 4096) by (bit_vector);
        VirtualAddress(a & !4095u64)
    }

    /// This address rounded up to the start of a page.
    pub fn page_align_up(self) -> (r: Self)
        requires
            self@ + 4095 <= u64::MAX,
        ensures
            r@ == div_ceil(self@ as int, 4096) * 4096,
            r@ % 4096 == 0,
    {
        let a = self.0 + 4095;
        assert(a & !4095u64 == a - a % 4096) by (bit_vector);
        VirtualAddress(a & !4095u64)
    }

    /// The page containing this address.
    pub fn page(self) -> (r: Page)
        ensures
            r@ == self@ / 4096,
    {
        Page::containing_addr(self)
    }

    /// The offset of this address within its page.
    pub fn page_offset(self) -> (r: usize)
        ensures
            r == self@ % 4096,
    {
        (self.0 % 4096) as usize
    }

    pub fn l1_index(self) -> (r: usize)
        ensures
            r == table_index(self@, 12),
            r < 512,
    {
        ((self.0 >> 12u64) % 512) as usize
    }

    pub fn l2_index(self) -> (r: usize)
        ensures
            r == table_index(self@, 21),
            r < 512,
    {
        ((self.0 >> 21u64) % 512) as usize
    }

    pub fn l3_index(self) -> (r: usize)
        ensures
            r == table_index(self@, 30),
            r < 512,
    {
        ((self.0 >> 30u64) % 512) as usize
    }

    pub fn l4_index(self) -> (r: usize)
        ensures
            r == table_index(self@, 39),
            r < 512,
    {
        ((self.0 >> 39u64) % 512) as usize
    }

    /// This address moved forward by `rhs` bytes, sign-extended again.
    pub fn plus(self, rhs: u64) -> (r: Self)
        requires
            self@ + rhs <= u64::MAX,
        ensures
            r@ == canonical((self@ + rhs) as u64),
    {
        Self::new(self.0 + rhs)
    }

    /// This address moved back by `rhs` bytes, sign-extended again.
    pub fn minus(self, rhs: u64) -> (r: Self)
        requires
            self@ >= rhs,
        ensures
            r@ == canonical((self@ - rhs) as u64),
    {
        Self::new(self.0 - rhs)
    }
}

/// A virtual memory page.
#[derive(Clone, Copy, Debug, PartialEq, Eq, Structural)]
pub struct Page {
    number: u64,
}

impl View for Page {
    type V = u64;

    closed spec fn view(&self) -> u64 {
        self.number
    }
}

impl Page {
    pub fn new(number: u64) -> (r: Self)
        ensures
            r@ == number,
    {
        Page { number }
    }

    /// The page that contains `addr`.
    pub fn containing_addr(addr: VirtualAddress) -> (r: Self)
        ensures
            r@ == addr@ / 4096,
    {
        Page { number: addr.to_raw() / 4096 }
    }

    /// The page that the given page table indices lead to.
    pub fn from_table_indices(l4_index: usize, l3_index: usize, l2_index: usize, l1_index: usize) -> (r: Self)
        ensures
            r@ == canonical(
                ((l4_index as u64) << 39u64) | ((l3_index as u64) << 30u64) | ((l2_index as u64)
                    << 21u64) | ((l1_index as u64) << 12u64),
            ) / 4096,
    {
        Self::containing_addr(VirtualAddress::from_table_indices(l4_index, l3_index, l2_index, l1_index))
    }

    pub fn number(self) -> (r: u64)
        ensures
            r == self@,
    {
        self.number
    }

    /// The first address of this page.
    pub fn base_addr(self) -> (r: VirtualAddress)
        requires
            self@ * 4096 <= u64::MAX,
        ensures
            r@ == self@ * 4096,
    {
        VirtualAddress::new_unchecked(self.number * 4096)
    }

    pub fn l1_index(self) -> (r: usize)
        requires
            self@ * 4096 <= u64::MAX,
        ensures
            r == table_index((self@ * 4096) as u64, 12),
            r < 512,
    {
        self.base_addr().l1_index()
    }

    pub fn l2_index(self) -> (r: usize)
        requires
            self@ * 4096 <= u64::MAX,
        ensures
            r == table_index((self@ * 4096) as u64, 21),
            r < 512,
    {
        self.base_addr().l2_index()
    }

    pub fn l3_index(self) -> (r: usize)
        requires
            self@ * 4096 <= u64::MAX,
        ensures
            r == table_index((self@ * 4096) as u64, 30),
            r < 512,
    {
        self.base_addr().l3_index()
    }

    pub fn l4_index(self) -> (r: usize)
        requires
            self@ * 4096 <= u64::MAX,
        ensures
            r == table_index((self@ * 4096) as u64, 39),
            r < 512,
    {
        self.base_addr().l4_index()
    }

    /// The page `rhs` pages after this one.
    pub fn plus(self, rhs: u64) -> (r: Self)
        requires
            self@ + rhs <= u64::MAX,
        ensures
            r@ == self@ + rhs,
    {
        Page { number: self.number + rhs }
    }

    /// The page `rhs` pages before this one.
    pub fn minus(self, rhs: u64) -> (r: Self)
        requires
            self@ >= rhs,
        ensures
            r@ == self@ - rhs,
    {
        Page { number: self.number - rhs }
    }
}

/// A physical memory frame.
#[derive(Clone, Copy, Debug, PartialEq, Eq, Structural)]
pub struct Frame {
    number: u64,
}

impl View for Frame {
    type V = u64;

    closed spec fn view(&self) -> u64 {
        self.number
    }
}

impl Frame {
    pub fn new(number: u64) -> (r: Self)
        ensures
            r@ == number,
    {
        Frame { number }
    }

    /// The frame that starts at `addr`, if `addr` is the start of a frame.
    pub fn from_base_addr(addr: VirtualAddress) -> (r: Option<Self>)
        requires
            addr@ % 4096 == 0 ==> is_physical_addr(addr@),
        ensures
            r is Some <==> addr@ % 4096 == 0,
            r matches Some(f) ==> f@ == addr@ / 4096,
    {
        if addr.is_page_aligned() {
            Some(Self::containing_addr(addr))
        } else {
            None
        }
    }

    /// The frame that contains the physical address `addr`.
    pub fn containing_addr(addr: VirtualAddress) -> (r: Self)
        requires
            is_physical_addr(addr@),
        ensures
            r@ == addr@ / 4096,
    {
        Frame { number: addr.to_raw() / 4096 }
    }

    pub fn number(self) -> (r: u64)
        ensures
            r == self@,
    {
        self.number
    }

    /// The first address of this frame.
    pub fn base_addr(self) -> (r: VirtualAddress)
        requires
            self@ * 4096 <= u64::MAX,
        ensures
            r@ == self@ * 4096,
    {
        VirtualAddress::new_unchecked(self.number * 4096)
    }
}


/// Something that hands out physical frames, for page tables among other things.
pub trait FrameAllocator {
    /// What the allocator keeps true of itself between calls.
    spec fn inv(&self) -> bool;

    /// Whether frame `f` is in use: the allocator does not hand it out.
    spec fn in_use(&self, f: u64) -> bool;

    /// Whether the allocator has no frame left to hand out.
    spec fn exhausted(&self) -> bool;

    /// A frame that was not in use and now is; a frame in use stays in use.
    fn allocate_frame(&mut self) -> (r: Option<Frame>)
        ensures
            old(self).inv() ==> final(self).inv(),
            old(self).inv() ==> (r matches Some(frame) ==> !old(self).in_use(frame@)
                && final(self).in_use(frame@)),
            old(self).inv() ==> forall|f: u64| old(self).in_use(f) ==> #[trigger] final(self).in_use(f),
            old(self).inv() ==> (r is None <==> old(self).exhausted()),
            old(self).inv() && r is None ==> final(self).exhausted(),
    ;
}

} // verus!
