//! A first-fit heap allocator over a list of free blocks ("holes"), kept sorted by address.
//!
//! The holes are held in a vector in address order; what the allocator hands out and
//! takes back is described by addresses and sizes.

use vstd::prelude::*;
use vstd::arithmetic::power2::pow2;
use crate::memory_types::{align_up, lemma_align_down_is_round_down, spec_align_down};

verus! {

/// The size and alignment of the bookkeeping record of a hole, and so the smallest block.
pub const MIN_ALLOC_SIZE: usize = 16;
/// The alignment every hole keeps.
pub const HOLE_ALIGN: usize = 8;

/// Whether `a` is a power of two that `usize` can hold.
pub open spec fn is_pow2(a: int) -> bool {
    exists|k: nat| k < usize::BITS && pow2(k) == a
}

/// The least multiple of `a` at or above `x`, as `align_up` computes it.
pub open spec fn align_up_spec(x: int, a: int) -> int {
    spec_align_down((x + a - 1) as usize, a as usize) as int
}

/// `align_up` rounds up to the next multiple of a power of two.
pub proof fn lemma_align_up(x: int, a: int)
    requires
        is_pow2(a),
        0 <= x,
        x + a - 1 <= usize::MAX,
    ensures
        x <= align_up_spec(x, a) <= x + a - 1,
        align_up_spec(x, a) % a == 0,
        x % a == 0 ==> align_up_spec(x, a) == x,
        a >= 1,
{
    let k = choose|k: nat| k < usize::BITS && pow2(k) == a;
    vstd::arithmetic::power2::lemma_pow2_pos(k);
    let y = (x + a - 1) as usize;
    lemma_align_down_is_round_down(y, k);
    vstd::arithmetic::div_mod::lemma_fundamental_div_mod(y as int, a);
    vstd::arithmetic::div_mod::lemma_mod_multiples_basic(y as int / a, a);
    assert(y as int - y as int % a == a * (y as int / a));
    assert((a * (y as int / a)) % a == 0) by {
        vstd::arithmetic::mul::lemma_mul_is_commutative(a, y as int / a);
    }
    if x % a == 0 {
        vstd::arithmetic::div_mod::lemma_fundamental_div_mod(x, a);
        assert(y as int == a * (x / a) + (a - 1));
        vstd::arithmetic::div_mod::lemma_fundamental_div_mod_converse(y as int, a, x / a, a - 1);
    }
}

/// A power of two that `usize` holds is at least one and at most `isize::MAX + 1`.
pub proof fn lemma_pow2_bounds(a: int)
    requires
        is_pow2(a),
    ensures
        1 <= a <= isize::MAX + 1,
{
    let k = choose|k: nat| k < usize::BITS && pow2(k) == a;
    vstd::arithmetic::power2::lemma_pow2_pos(k);
    vstd::arithmetic::power2::lemma2_to64();
    vstd::arithmetic::power2::lemma2_to64_rest();
    if k < (usize::BITS - 1) as nat {
        vstd::arithmetic::power2::lemma_pow2_strictly_increases(k, (usize::BITS - 1) as nat);
    }
    if usize::BITS == 32 {
        assert(isize::MAX == 0x7FFF_FFFF);
        assert(pow2(31) == 0x8000_0000);
    } else {
        assert(usize::BITS == 64);
        assert(isize::MAX == 0x7FFF_FFFF_FFFF_FFFF);
        assert(pow2(63) == 0x8000_0000_0000_0000);
    }
}

/// A size and power-of-two alignment, as the allocator is asked for them.
#[derive(Clone, Copy, Debug, PartialEq, Eq, Structural)]
pub struct Layout {
    size: usize,
    align: usize,
}

/// Why a size and alignment do not make a layout.
#[derive(Clone, Copy, Debug, PartialEq, Eq, Structural)]
pub struct LayoutError;

/// Whether `size` and `align` make a layout: the alignment is a power of two, and the size
/// rounded up to it does not exceed `isize::MAX`.
pub open spec fn layout_ok(size: int, align: int) -> bool {
    &&& is_pow2(align)
    &&& size + align - 1 <= isize::MAX
}

/// Whether `x` is a power of two.
pub fn is_power_of_two(x: usize) -> (r: bool)
    ensures
        r == is_pow2(x as int),
{
    let mut p: usize = 1;
    let mut k: u32 = 0;
    proof {
        vstd::arithmetic::power2::lemma2_to64();
    }
    while p < x && k + 1 < usize::BITS
        invariant
            k < usize::BITS,
            p == pow2(k as nat),
            forall|j: nat| j < k ==> pow2(j) < x,
        decreases usize::BITS - k,
    {
        proof {
            vstd::arithmetic::power2::lemma_pow2_unfold((k + 1) as nat);
            vstd::bits::lemma_usize_pow2_no_overflow((k + 1) as nat);
        }
        p = p * 2;
        k = k + 1;
    }
    proof {
        if p != x && is_pow2(x as int) {
            let j = choose|j: nat| j < usize::BITS && pow2(j) == x;
            if j < k {
            } else if j == k {
            } else {
                if p < x {
                    assert(k + 1 >= usize::BITS);
                } else {
                    vstd::arithmetic::power2::lemma_pow2_strictly_increases(k as nat, j);
                }
            }
        }
    }
    p == x
}

impl Layout {
    pub closed spec fn size_spec(&self) -> usize {
        self.size
    }

    pub closed spec fn align_spec(&self) -> usize {
        self.align
    }

    pub closed spec fn wf(&self) -> bool {
        layout_ok(self.size as int, self.align as int)
    }

    /// The layout of `size` bytes aligned to `align`, when they make one.
    pub fn from_size_align(size: usize, align: usize) -> (r: Result<Layout, LayoutError>)
        ensures
            r is Ok <==> layout_ok(size as int, align as int),
            r matches Ok(l) ==> l.wf() && l.size_spec() == size && l.align_spec() == align,
    {
        if !is_power_of_two(align) {
            return Err(LayoutError);
        }
        proof {
            lemma_pow2_bounds(align as int);
        }
        if size > (isize::MAX as usize) - (align - 1) {
            return Err(LayoutError);
        }
        Ok(Layout { size, align })
    }

    pub fn size(&self) -> (r: usize)
        ensures
            r == self.size_spec(),
    {
        self.size
    }

    pub fn align(&self) -> (r: usize)
        ensures
            r == self.align_spec(),
    {
        self.align
    }
}

/// A block of memory: where it starts and how many bytes it holds.
#[derive(Clone, Copy, Debug, PartialEq, Eq, Structural)]
pub struct HoleInfo {
    pub addr: usize,
    pub size: usize,
}

/// How a hole is carved up to serve a request.
#[derive(Clone, Copy, Debug, PartialEq, Eq, Structural)]
pub struct Allocation {
    /// The block handed out.
    pub info: HoleInfo,
    /// The free part before the block, if any.
    pub front_padding: Option<HoleInfo>,
    /// The free part after the block, if any.
    pub back_padding: Option<HoleInfo>,
}

/// The address at which `hole` would serve a request aligned to `align`: the hole's own
/// address when it is aligned, else the first aligned address that leaves room for a
/// hole record in front.
pub open spec fn aligned_start(hole: HoleInfo, align: int) -> int {
    if align_up_spec(hole.addr as int, align) == hole.addr {
        hole.addr as int
    } else {
        align_up_spec(hole.addr + MIN_ALLOC_SIZE, align)
    }
}

/// What `split_hole` gives: `None` when the hole is too small, or when what is left
/// behind the block would be too small to be a hole.
pub open spec fn split_hole_spec(hole: HoleInfo, size: int, align: int) -> Option<Allocation> {
    let start = aligned_start(hole, align);
    let front = if start == hole.addr {
        None::<HoleInfo>
    } else {
        Some(HoleInfo { addr: hole.addr, size: (start - hole.addr) as usize })
    };
    let rest = hole.addr + hole.size - start;
    if start + size > hole.addr + hole.size {
        None
    } else if rest == size {
        Some(Allocation { info: HoleInfo { addr: start as usize, size: size as usize }, front_padding: front, back_padding: None })
    } else if rest - size < MIN_ALLOC_SIZE {
        None
    } else {
        Some(
            Allocation {
                info: HoleInfo { addr: start as usize, size: size as usize },
                front_padding: front,
                back_padding: Some(HoleInfo { addr: (start + size) as usize, size: (rest - size) as usize }),
            },
        )
    }
}

/// Whether the arithmetic of splitting `hole` for `size` bytes aligned to `align` fits.
pub open spec fn split_fits(hole: HoleInfo, size: int, align: int) -> bool {
    hole.addr + MIN_ALLOC_SIZE + align + size <= usize::MAX
}

/// Carve a block of `required`'s size and alignment out of `hole`.
pub fn split_hole(hole: HoleInfo, required: Layout) -> (r: Option<Allocation>)
    requires
        required.wf(),
        hole.addr + hole.size <= usize::MAX,
        split_fits(hole, required.size_spec() as int, required.align_spec() as int),
    ensures
        r == split_hole_spec(hole, required.size_spec() as int, required.align_spec() as int),
{
    let required_size = required.size();
    let required_align = required.align();
    proof {
        lemma_align_up(hole.addr as int, required_align as int);
        lemma_align_up(hole.addr + MIN_ALLOC_SIZE, required_align as int);
    }
    let (aligned_addr, front_padding) = if hole.addr == align_up(hole.addr, required_align) {
        (hole.addr, None)
    } else {
        let aligned_addr = align_up(hole.addr + MIN_ALLOC_SIZE, required_align);
        (aligned_addr, Some(HoleInfo { addr: hole.addr, size: aligned_addr - hole.addr }))
    };
    if aligned_addr + required_size > hole.addr + hole.size {
        return None;
    }
    let aligned_hole = HoleInfo { addr: aligned_addr, size: hole.size - (aligned_addr - hole.addr) };
    let back_padding = if aligned_hole.size == required_size {
        None
    } else if aligned_hole.size - required_size < MIN_ALLOC_SIZE {
        return None;
    } else {
        Some(HoleInfo { addr: aligned_hole.addr + required_size, size: aligned_hole.size - required_size })
    };
    Some(
        Allocation {
            info: HoleInfo { addr: aligned_hole.addr, size: required_size },
            front_padding,
            back_padding,
        },
    )
}


/// Whether address `a` lies in `h`.
pub open spec fn in_hole(h: HoleInfo, a: int) -> bool {
    h.addr <= a < h.addr + h.size
}

/// Whether address `a` is free: it lies in one of the holes.
pub open spec fn is_free(holes: Seq<HoleInfo>, a: int) -> bool {
    exists|i: int| 0 <= i < holes.len() && in_hole(#[trigger] holes[i], a)
}

/// The shape of a hole list: non-empty holes in address order, not overlapping, at non-null
/// addresses that are multiples of [`HOLE_ALIGN`], each ending within the address space.
pub open spec fn holes_wf(holes: Seq<HoleInfo>) -> bool {
    &&& forall|i: int| 0 <= i < holes.len() ==> (#[trigger] holes[i]).addr + holes[i].size <= usize::MAX
    &&& forall|i: int| 0 <= i < holes.len() ==> (#[trigger] holes[i]).addr % 8 == 0
    &&& forall|i: int| 0 <= i < holes.len() ==> (#[trigger] holes[i]).addr > 0
    &&& forall|i: int| 0 <= i < holes.len() ==> (#[trigger] holes[i]).size > 0
    &&& forall|i: int, j: int|
        0 <= i < j < holes.len() ==> (#[trigger] holes[i]).addr + holes[i].size <= (#[trigger] holes[j]).addr
}

/// The holes that a split leaves behind, in address order.
pub open spec fn paddings(a: Allocation) -> Seq<HoleInfo> {
    let front = match a.front_padding {
        Some(f) => seq![f],
        None => Seq::<HoleInfo>::empty(),
    };
    let back = match a.back_padding {
        Some(b) => seq![b],
        None => Seq::<HoleInfo>::empty(),
    };
    front + back
}

/// `holes` with hole `i` replaced by what splitting it left behind.
pub open spec fn replace_hole(holes: Seq<HoleInfo>, i: int, a: Allocation) -> Seq<HoleInfo> {
    holes.subrange(0, i) + paddings(a) + holes.subrange(i + 1, holes.len() as int)
}

/// What a successful split of hole `h` looks like: the block and the paddings tile `h`.
pub proof fn lemma_split_tiles(h: HoleInfo, size: int, align: int)
    requires
        is_pow2(align),
        size >= 0,
        h.addr + h.size <= usize::MAX,
        h.addr + MIN_ALLOC_SIZE + align + size <= usize::MAX,
        split_hole_spec(h, size, align) is Some,
    ensures
        ({
            let a = split_hole_spec(h, size, align)->0;
            &&& a.info.size == size
            &&& (a.info.addr as int) % align == 0
            &&& h.addr <= a.info.addr
            &&& a.info.addr + size <= h.addr + h.size
            &&& (match a.front_padding {
                Some(f) => f.addr == h.addr && f.addr + f.size == a.info.addr && f.size >= MIN_ALLOC_SIZE,
                None => a.info.addr == h.addr,
            })
            &&& (match a.back_padding {
                Some(b) => b.addr == a.info.addr + size && b.addr + b.size == h.addr + h.size && b.size
                    >= MIN_ALLOC_SIZE,
                None => a.info.addr + size == h.addr + h.size,
            })
        }),
{
    lemma_align_up(h.addr as int, align);
    lemma_align_up(h.addr + MIN_ALLOC_SIZE, align);
}


/// A power of two divides 8 or is divided by it.
pub proof fn lemma_pow2_vs_8(a: int)
    requires
        is_pow2(a),
    ensures
        a < 8 ==> 8int % a == 0,
        a >= 8 ==> a % 8 == 0,
{
    let k = choose|k: nat| k < usize::BITS && pow2(k) == a;
    vstd::arithmetic::power2::lemma2_to64();
    if k >= 3 {
        vstd::arithmetic::power2::lemma_pow2_adds(3, (k - 3) as nat);
        vstd::arithmetic::power2::lemma_pow2_pos((k - 3) as nat);
        assert(pow2(3) == 8);
        assert(a >= 8) by (nonlinear_arith)
            requires
                a == pow2(3) * pow2((k - 3) as nat),
                pow2(3) == 8,
                pow2((k - 3) as nat) > 0;
        vstd::arithmetic::div_mod::lemma_mod_multiples_basic(pow2((k - 3) as nat) as int, 8);
        vstd::arithmetic::mul::lemma_mul_is_commutative(8, pow2((k - 3) as nat) as int);
    } else {
        if k == 0 {
            assert(pow2(0) == 1);
            assert(8int % 1 == 0);
        } else if k == 1 {
            assert(pow2(1) == 2);
            assert(8int % 2 == 0);
        } else {
            assert(pow2(2) == 4);
            assert(8int % 4 == 0);
        }
    }
}

/// Replacing hole `i` by what a successful split of it leaves keeps the list's shape, and
/// frees exactly what was free except the block handed out.
pub proof fn lemma_replace_hole(holes: Seq<HoleInfo>, i: int, size: int, align: int)
    requires
        holes_wf(holes),
        0 <= i < holes.len(),
        is_pow2(align),
        size >= 0,
        size % 8 == 0,
        holes[i].addr + MIN_ALLOC_SIZE + align + size <= usize::MAX,
        split_hole_spec(holes[i], size, align) is Some,
    ensures
        ({
            let a = split_hole_spec(holes[i], size, align)->0;
            let n = replace_hole(holes, i, a);
            &&& holes_wf(n)
            &&& forall|x: int| (#[trigger] is_free(n, x)) == (is_free(holes, x) && !in_hole(a.info, x))
            &&& forall|x: int| in_hole(a.info, x) ==> #[trigger] is_free(holes, x)
        }),
{
    let h = holes[i];
    let a = split_hole_spec(h, size, align)->0;
    lemma_split_tiles(h, size, align);
    lemma_pow2_vs_8(align);
    let m = paddings(a);
    let n = replace_hole(holes, i, a);
    let ml = m.len() as int;
    assert(n.len() == holes.len() - 1 + ml);
    // Where each element of the new list comes from.
    assert forall|k: int| 0 <= k < n.len() implies #[trigger] n[k] == (if k < i {
        holes[k]
    } else if k < i + ml {
        m[k - i]
    } else {
        holes[k - ml + 1]
    }) by {
    }
    // Every padding lies within the split hole, after the block or before it.
    assert forall|q: int| 0 <= q < ml implies h.addr <= (#[trigger] m[q]).addr && m[q].addr + m[q].size
        <= h.addr + h.size && m[q].addr % 8 == 0 && (m[q].addr + m[q].size <= a.info.addr || a.info.addr
        + size <= m[q].addr) by {
        if a.front_padding is Some && q == 0 {
        } else {
            if align >= 8 {
                vstd::arithmetic::div_mod::lemma_mod_adds(a.info.addr as int, size, 8);
                assert((a.info.addr as int) % 8 == 0) by {
                    vstd::arithmetic::div_mod::lemma_mod_mod(a.info.addr as int, 8, align / 8);
                    vstd::arithmetic::div_mod::lemma_fundamental_div_mod(align, 8);
                }
            } else {
                assert(a.front_padding is None) by {
                    lemma_pow2_bounds(align);
                    let q = h.addr as int / 8;
                    let r = 8int / align;
                    vstd::arithmetic::div_mod::lemma_fundamental_div_mod(h.addr as int, 8);
                    vstd::arithmetic::div_mod::lemma_fundamental_div_mod(8int, align);
                    assert(h.addr as int == (q * r) * align) by (nonlinear_arith)
                        requires
                            h.addr as int == 8 * q,
                            8 == align * r;
                    vstd::arithmetic::div_mod::lemma_mod_multiples_basic(q * r, align);
                    lemma_align_up(h.addr as int, align);
                }
                vstd::arithmetic::div_mod::lemma_mod_adds(a.info.addr as int, size, 8);
            }
        }
    }
    assert(ml == 2 ==> m[0].addr + m[0].size <= m[1].addr);
    assert forall|k1: int, k2: int| 0 <= k1 < k2 < n.len() implies (#[trigger] n[k1]).addr + n[k1].size
        <= (#[trigger] n[k2]).addr by {
        if k2 < i {
        } else if k1 < i && k2 < i + ml {
            assert(holes[k1].addr + holes[k1].size <= h.addr);
        } else if k1 < i {
            assert(holes[k1].addr + holes[k1].size <= h.addr);
            assert(h.addr + h.size <= holes[k2 - ml + 1].addr);
        } else if k1 < i + ml && k2 < i + ml {
        } else if k1 < i + ml {
            assert(h.addr + h.size <= holes[k2 - ml + 1].addr);
        } else {
        }
    }
    assert forall|k: int| 0 <= k < n.len() implies (#[trigger] n[k]).addr + n[k].size <= usize::MAX
        && n[k].addr % 8 == 0 && n[k].addr > 0 by {
        if i <= k < i + ml {
            assert(m[k - i] == n[k]);
        }
    }
    assert forall|x: int| (#[trigger] is_free(n, x)) == (is_free(holes, x) && !in_hole(a.info, x)) by {
        if is_free(n, x) {
            let k = choose|k: int| 0 <= k < n.len() && in_hole(#[trigger] n[k], x);
            if k < i {
                assert(in_hole(holes[k], x));
                assert(holes[k].addr + holes[k].size <= h.addr);
            } else if k < i + ml {
                assert(in_hole(m[k - i], x));
                assert(in_hole(holes[i], x));
            } else {
                assert(in_hole(holes[k - ml + 1], x));
                assert(h.addr + h.size <= holes[k - ml + 1].addr);
            }
        }
        if is_free(holes, x) && !in_hole(a.info, x) {
            let k = choose|k: int| 0 <= k < holes.len() && in_hole(#[trigger] holes[k], x);
            if k < i {
                assert(in_hole(n[k], x));
            } else if k == i {
                if x < a.info.addr {
                    let f = a.front_padding->0;
                    assert(in_hole(f, x));
                    assert(n[i] == f);
                    assert(in_hole(n[i], x));
                } else {
                    let b = a.back_padding->0;
                    assert(in_hole(b, x));
                    assert(n[i + ml - 1] == b);
                    assert(in_hole(n[i + ml - 1], x));
                }
            } else {
                assert(in_hole(n[k + ml - 1], x));
            }
        }
    }
    assert forall|x: int| in_hole(a.info, x) implies #[trigger] is_free(holes, x) by {
        assert(in_hole(holes[i], x));
    }
}


/// The arithmetic of splitting each hole that a first-fit search for `size` bytes aligned to
/// `align` reaches fits: every hole up to and including the first that can hold the block.
pub open spec fn searched_splits_fit(holes: Seq<HoleInfo>, size: int, align: int) -> bool {
    forall|i: int|
        0 <= i < holes.len() && (forall|j: int|
            0 <= j < i ==> split_hole_spec(#[trigger] holes[j], size, align) is None) ==> split_fits(
            #[trigger] holes[i],
            size,
            align,
        )
}

/// Serve `layout` from the first hole that can hold it, replacing that hole by what is
/// left of it. `Err(())` when no hole can.
pub fn allocate_first_fit(holes: &mut Vec<HoleInfo>, layout: Layout) -> (r: Result<HoleInfo, ()>)
    requires
        holes_wf(old(holes)@),
        layout.wf(),
        layout.size_spec() % 8 == 0,
        searched_splits_fit(old(holes)@, layout.size_spec() as int, layout.align_spec() as int),
    ensures
        holes_wf(final(holes)@),
        r is Err <==> forall|i: int|
            0 <= i < old(holes)@.len() ==> split_hole_spec(
                #[trigger] old(holes)@[i],
                layout.size_spec() as int,
                layout.align_spec() as int,
            ) is None,
        r is Err ==> final(holes)@ == old(holes)@,
        r matches Ok(info) ==> exists|i: int|
            #![trigger old(holes)@[i]]
            {
                &&& 0 <= i < old(holes)@.len()
                &&& forall|j: int|
                    0 <= j < i ==> split_hole_spec(
                        #[trigger] old(holes)@[j],
                        layout.size_spec() as int,
                        layout.align_spec() as int,
                    ) is None
                &&& split_hole_spec(
                    old(holes)@[i],
                    layout.size_spec() as int,
                    layout.align_spec() as int,
                ) matches Some(a)
                &&& info == a.info
                &&& final(holes)@ == replace_hole(old(holes)@, i, a)
            },
        r matches Ok(info) ==> {
            &&& info.size == layout.size_spec()
            &&& (info.addr as int) % (layout.align_spec() as int) == 0
            &&& info.addr > 0
            &&& forall|x: int| in_hole(info, x) ==> #[trigger] is_free(old(holes)@, x)
            &&& forall|x: int|
                #[trigger] is_free(final(holes)@, x) == (is_free(old(holes)@, x) && !in_hole(info, x))
        },
{
    let ghost size = layout.size_spec() as int;
    let ghost align = layout.align_spec() as int;
    let mut i: usize = 0;
    while i < holes.len()
        invariant
            holes@ == old(holes)@,
            holes_wf(holes@),
            layout.wf(),
            size == layout.size_spec(),
            align == layout.align_spec(),
            size % 8 == 0,
            searched_splits_fit(holes@, size, align),
            i <= holes@.len(),
            forall|j: int| 0 <= j < i ==> split_hole_spec(#[trigger] holes@[j], size, align) is None,
        decreases holes@.len() - i,
    {
        let hole = holes[i];
        proof {
            assert(split_fits(holes@[i as int], size, align));
        }
        let allocation = split_hole(hole, layout);
        match allocation {
            Some(a) => {
                proof {
                    lemma_replace_hole(holes@, i as int, size, align);
                    lemma_split_tiles(hole, size, align);
                }
                let ghost before = holes@;
                holes.remove(i);
                let mut at = i;
                match a.front_padding {
                    Some(f) => {
                        holes.insert(at, f);
                        at = at + 1;
                    },
                    None => {},
                }
                match a.back_padding {
                    Some(b) => {
                        holes.insert(at, b);
                    },
                    None => {},
                }
                proof {
                    assert(holes@ =~= replace_hole(before, i as int, a));
                }
                return Ok(a.info);
            },
            None => {
                i = i + 1;
            },
        }
    }
    Err(())
}

/// The layout a block really takes: at least [`MIN_ALLOC_SIZE`] bytes, rounded up to
/// [`HOLE_ALIGN`], with the requested alignment.
pub open spec fn hole_size_for(size: int) -> int {
    let s = if size < MIN_ALLOC_SIZE { MIN_ALLOC_SIZE as int } else { size };
    align_up_spec(s, 8)
}

/// The layout a request takes once padded to hold a hole record later.
pub fn align_layout_for_hole(layout: Layout) -> (r: Layout)
    requires
        layout.wf(),
        layout_ok(hole_size_for(layout.size_spec() as int), layout.align_spec() as int),
    ensures
        r.wf(),
        r.size_spec() == hole_size_for(layout.size_spec() as int),
        r.align_spec() == layout.align_spec(),
        r.size_spec() >= layout.size_spec(),
        r.size_spec() >= MIN_ALLOC_SIZE,
        r.size_spec() % 8 == 0,
{
    let mut size = layout.size();
    if size < MIN_ALLOC_SIZE {
        size = MIN_ALLOC_SIZE;
    }
    proof {
        vstd::arithmetic::power2::lemma2_to64();
        assert(is_pow2(8)) by {
            assert(pow2(3) == 8);
        }
        lemma_pow2_bounds(layout.align_spec() as int);
        lemma_align_up(size as int, 8);
    }
    let size = align_up(size, HOLE_ALIGN);
    match Layout::from_size_align(size, layout.align()) {
        Ok(l) => l,
        Err(_) => {
            assert(false);
            layout
        },
    }
}

/// The free blocks of a heap, in address order.
pub struct HoleList {
    holes: Vec<HoleInfo>,
}

impl View for HoleList {
    type V = Seq<HoleInfo>;

    closed spec fn view(&self) -> Seq<HoleInfo> {
        self.holes@
    }
}

impl HoleList {
    /// A list without holes.
    pub fn empty() -> (r: Self)
        ensures
            r@ == Seq::<HoleInfo>::empty(),
            holes_wf(r@),
    {
        HoleList { holes: Vec::new() }
    }

    /// Make the `hole_size` bytes from `hole_addr` the only hole, its start rounded up to
    /// [`HOLE_ALIGN`].
    pub fn init(&mut self, hole_addr: usize, hole_size: usize)
        requires
            hole_addr > 0,
            hole_size >= 8,
            hole_addr + hole_size + 8 <= usize::MAX,
        ensures
            holes_wf(final(self)@),
            final(self)@ == seq![
                HoleInfo {
                    addr: align_up_spec(hole_addr as int, 8) as usize,
                    size: (hole_size - (align_up_spec(hole_addr as int, 8) - hole_addr)) as usize,
                },
            ],
    {
        proof {
            vstd::arithmetic::power2::lemma2_to64();
            assert(is_pow2(8)) by {
                assert(pow2(3) == 8);
            }
            lemma_align_up(hole_addr as int, 8);
        }
        let aligned_hole_addr = align_up(hole_addr, HOLE_ALIGN);
        let size = hole_size.saturating_sub(aligned_hole_addr - hole_addr);
        let mut holes: Vec<HoleInfo> = Vec::new();
        holes.push(HoleInfo { addr: aligned_hole_addr, size });
        self.holes = holes;
    }

    /// Serve `layout` (padded as [`align_layout_for_hole`] does) from the first hole that
    /// can hold it; the block's address and the padded layout.
    pub fn allocate_first_fit(&mut self, layout: Layout) -> (r: Result<(usize, Layout), ()>)
        requires
            holes_wf(old(self)@),
            layout.wf(),
            layout_ok(hole_size_for(layout.size_spec() as int), layout.align_spec() as int),
            searched_splits_fit(old(self)@, hole_size_for(layout.size_spec() as int), layout.align_spec() as int),
        ensures
            holes_wf(final(self)@),
            r is Err ==> final(self)@ == old(self)@ && forall|i: int|
                0 <= i < old(self)@.len() ==> split_hole_spec(
                    #[trigger] old(self)@[i],
                    hole_size_for(layout.size_spec() as int),
                    layout.align_spec() as int,
                ) is None,
            r matches Ok((addr, l)) ==> {
                let info = HoleInfo { addr, size: l.size_spec() };
                &&& l.size_spec() == hole_size_for(layout.size_spec() as int)
                &&& l.align_spec() == layout.align_spec()
                &&& addr > 0
                &&& (addr as int) % (layout.align_spec() as int) == 0
                &&& forall|x: int| in_hole(info, x) ==> #[trigger] is_free(old(self)@, x)
                &&& forall|x: int|
                    #[trigger] is_free(final(self)@, x) == (is_free(old(self)@, x) && !in_hole(info, x))
            },
            (exists|i: int|
                0 <= i < old(self)@.len() && split_hole_spec(
                    #[trigger] old(self)@[i],
                    hole_size_for(layout.size_spec() as int),
                    layout.align_spec() as int,
                ) is Some) <==> r is Ok,
    {
        let aligned_layout = align_layout_for_hole(layout);
        match allocate_first_fit(&mut self.holes, aligned_layout) {
            Ok(info) => Ok((info.addr, aligned_layout)),
            Err(()) => Err(()),
        }
    }
}


/// Whether the block of `size` bytes at `addr` overlaps none of `holes`.
pub open spec fn block_outside_holes(holes: Seq<HoleInfo>, addr: int, size: int) -> bool {
    forall|i: int|
        0 <= i < holes.len() ==> (#[trigger] holes[i]).addr + holes[i].size <= addr || addr + size
            <= holes[i].addr
}

/// Give the block of `size` bytes at `addr` back to the free holes, merging it with the
/// holes right before and after it.
#[verifier::spinoff_prover]
pub fn deallocate(holes: &mut Vec<HoleInfo>, addr: usize, size: usize)
    requires
        holes_wf(old(holes)@),
        addr > 0,
        addr % 8 == 0,
        size >= MIN_ALLOC_SIZE,
        addr + size <= usize::MAX,
        block_outside_holes(old(holes)@, addr as int, size as int),
    ensures
        holes_wf(final(holes)@),
        forall|x: int|
            #[trigger] is_free(final(holes)@, x) == (is_free(old(holes)@, x) || (addr <= x < addr + size)),
{
    let ghost size0 = size as int;
    let mut size = size;
    let mut c: usize = 0;
    loop
        invariant_except_break
            holes_wf(holes@),
            c <= holes@.len(),
            addr > 0,
            addr % 8 == 0,
            size >= MIN_ALLOC_SIZE,
            addr + size <= usize::MAX,
            block_outside_holes(holes@, addr as int, size as int),
            forall|i: int| 0 <= i < c ==> (#[trigger] holes@[i]).addr + holes@[i].size <= addr,
            forall|x: int|
                (#[trigger] is_free(holes@, x) || (addr <= x < addr + size)) == (is_free(old(holes)@, x)
                    || (addr <= x < addr + size0)),
        ensures
            holes_wf(holes@),
            forall|x: int|
                #[trigger] is_free(holes@, x) == (is_free(old(holes)@, x) || (addr <= x < addr + size0)),
        decreases 2 * holes@.len() - c,
    {
        let (hole_addr, hole_size) = if c == 0 {
            (0usize, 0usize)
        } else {
            let x = holes[c - 1];
            if x.size == 0 {
                (0usize, x.size)
            } else {
                (x.addr, x.size)
            }
        };
        proof {
            if c > 0 {
                assert(holes@[c - 1].addr + holes@[c - 1].size <= addr);
            }
        }
        let ghost before = holes@;
        let ghost old_size = size;
        if c < holes.len() {
            let next = holes[c];
            if hole_addr + hole_size == addr && addr + size == next.addr {
                // The block fills the gap between the current hole and the next one.
                let x = holes[c - 1];
                holes.set(c - 1, HoleInfo { addr: x.addr, size: x.size + size + next.size });
                holes.remove(c);
                proof {
                    lemma_merge_both(before, c as int, addr as int, old_size as int);
                    lemma_free_chain(holes@, before, old(holes)@, addr as int, old_size as int, size0);
                }
                break;
            } else if hole_addr + hole_size == addr {
                // The block lies right behind the current hole.
                let x = holes[c - 1];
                proof {
                    assert(before[c - 1].addr + before[c - 1].size <= before[c as int].addr);
                    assert(before[c as int].addr + before[c as int].size <= addr || addr + size
                        <= before[c as int].addr);
                }
                holes.set(c - 1, HoleInfo { addr: x.addr, size: x.size + size });
                proof {
                    lemma_merge_back(before, c as int, addr as int, old_size as int);
                    lemma_free_chain(holes@, before, old(holes)@, addr as int, old_size as int, size0);
                }
                break;
            } else if addr + size == next.addr {
                // The block lies right before the next hole: take that hole into the block.
                holes.remove(c);
                size = size + next.size;
                proof {
                    lemma_absorb_next(before, c as int, addr as int, old_size as int);
                    assert(holes@ == before.remove(c as int));
                    assert(size == old_size + before[c as int].size);
                    lemma_free_chain_grow(
                        before.remove(c as int),
                        before,
                        old(holes)@,
                        addr as int,
                        old_size + before[c as int].size,
                        old_size as int,
                        size0,
                    );
                }
            } else if next.addr <= addr {
                // The block lies behind the next hole.
                proof {
                    assert(before[c as int].addr + before[c as int].size <= addr);
                }
                c = c + 1;
                proof {
                    assert(holes@ == before);
                    assert(size == old_size);
                }
            } else {
                // The block lies between the current hole and the next one.
                proof {
                    assert(before[c as int].addr + before[c as int].size <= addr || addr + size
                        <= before[c as int].addr);
                }
                holes.insert(c, HoleInfo { addr, size });
                proof {
                    lemma_insert_block(before, c as int, addr as int, old_size as int);
                    lemma_free_chain(holes@, before, old(holes)@, addr as int, old_size as int, size0);
                }
                break;
            }
        } else {
            if hole_addr + hole_size == addr {
                let x = holes[c - 1];
                holes.set(c - 1, HoleInfo { addr: x.addr, size: x.size + size });
                proof {
                    lemma_merge_back(before, c as int, addr as int, old_size as int);
                    lemma_free_chain(holes@, before, old(holes)@, addr as int, old_size as int, size0);
                }
                break;
            } else {
                holes.insert(c, HoleInfo { addr, size });
                proof {
                    lemma_insert_block(before, c as int, addr as int, old_size as int);
                    lemma_free_chain(holes@, before, old(holes)@, addr as int, old_size as int, size0);
                }
                break;
            }
        }
    }
}

/// Chaining two descriptions of the free addresses, when the block has become part of the holes.
proof fn lemma_free_chain(n: Seq<HoleInfo>, b: Seq<HoleInfo>, o: Seq<HoleInfo>, addr: int, sb: int, s0: int)
    requires
        forall|v: int| #[trigger] is_free(n, v) == (is_free(b, v) || (addr <= v < addr + sb)),
        forall|v: int| (#[trigger] is_free(b, v) || (addr <= v < addr + sb)) == (is_free(o, v) || (addr <= v < addr + s0)),
    ensures
        forall|v: int| #[trigger] is_free(n, v) == (is_free(o, v) || (addr <= v < addr + s0)),
{
    assert forall|v: int| #[trigger] is_free(n, v) == (is_free(o, v) || (addr <= v < addr + s0)) by {
        assert(is_free(b, v) == is_free(b, v));
    }
}

/// Chaining two descriptions of the free addresses, when the block has grown by a hole.
proof fn lemma_free_chain_grow(n: Seq<HoleInfo>, b: Seq<HoleInfo>, o: Seq<HoleInfo>, addr: int, sn: int, sb: int, s0: int)
    requires
        forall|v: int| (#[trigger] is_free(n, v) || (addr <= v < addr + sn)) == (is_free(b, v) || (addr <= v < addr + sb)),
        forall|v: int| (#[trigger] is_free(b, v) || (addr <= v < addr + sb)) == (is_free(o, v) || (addr <= v < addr + s0)),
    ensures
        forall|v: int| (#[trigger] is_free(n, v) || (addr <= v < addr + sn)) == (is_free(o, v) || (addr <= v < addr + s0)),
{
    assert forall|v: int| (#[trigger] is_free(n, v) || (addr <= v < addr + sn)) == (is_free(o, v) || (addr <= v < addr + s0)) by {
        assert(is_free(b, v) == is_free(b, v));
    }
}

/// Merging hole `c - 1`, the block, and hole `c` into one hole.
proof fn lemma_merge_both(holes: Seq<HoleInfo>, c: int, addr: int, size: int)
    requires
        holes_wf(holes),
        1 <= c < holes.len(),
        holes[c - 1].addr + holes[c - 1].size == addr,
        addr + size == holes[c].addr,
        size > 0,
    ensures
        ({
            let x = holes[c - 1];
            let y = holes[c];
            let n = holes.update(c - 1, HoleInfo { addr: x.addr, size: (x.size + size + y.size) as usize }).remove(c);
            &&& holes_wf(n)
            &&& forall|v: int| #[trigger] is_free(n, v) == (is_free(holes, v) || (addr <= v < addr + size))
        }),
{
    let x = holes[c - 1];
    let y = holes[c];
    let m = HoleInfo { addr: x.addr, size: (x.size + size + y.size) as usize };
    let n = holes.update(c - 1, m).remove(c);
    assert forall|k: int| 0 <= k < n.len() implies #[trigger] n[k] == (if k < c - 1 {
        holes[k]
    } else if k == c - 1 {
        m
    } else {
        holes[k + 1]
    }) by {}
    assert forall|i: int, j: int| 0 <= i < j < n.len() implies (#[trigger] n[i]).addr + n[i].size
        <= (#[trigger] n[j]).addr by {
        if j == c - 1 {
            assert(holes[i].addr + holes[i].size <= holes[c - 1].addr);
        } else if i == c - 1 {
            assert(holes[c].addr + holes[c].size <= holes[j + 1].addr);
        } else if i < c - 1 && j > c - 1 {
            assert(holes[i].addr + holes[i].size <= holes[j + 1].addr);
        }
    }
    assert forall|v: int| #[trigger] is_free(n, v) == (is_free(holes, v) || (addr <= v < addr + size)) by {
        if is_free(n, v) {
            let k = choose|k: int| 0 <= k < n.len() && in_hole(#[trigger] n[k], v);
            if k < c - 1 {
                assert(in_hole(holes[k], v));
            } else if k == c - 1 {
                if v < addr {
                    assert(in_hole(holes[c - 1], v));
                } else if v >= addr + size {
                    assert(in_hole(holes[c], v));
                }
            } else {
                assert(in_hole(holes[k + 1], v));
            }
        }
        if is_free(holes, v) {
            let k = choose|k: int| 0 <= k < holes.len() && in_hole(#[trigger] holes[k], v);
            if k < c - 1 {
                assert(in_hole(n[k], v));
            } else if k == c - 1 || k == c {
                assert(in_hole(n[c - 1], v));
            } else {
                assert(in_hole(n[k - 1], v));
            }
        }
        if addr <= v < addr + size {
            assert(in_hole(n[c - 1], v));
        }
    }
}

/// Growing hole `c - 1` by the block right behind it.
proof fn lemma_merge_back(holes: Seq<HoleInfo>, c: int, addr: int, size: int)
    requires
        holes_wf(holes),
        1 <= c <= holes.len(),
        holes[c - 1].addr + holes[c - 1].size == addr,
        c < holes.len() ==> addr + size <= holes[c].addr,
        addr + size <= usize::MAX,
        size > 0,
    ensures
        ({
            let x = holes[c - 1];
            let n = holes.update(c - 1, HoleInfo { addr: x.addr, size: (x.size + size) as usize });
            &&& holes_wf(n)
            &&& forall|v: int| #[trigger] is_free(n, v) == (is_free(holes, v) || (addr <= v < addr + size))
        }),
{
    let x = holes[c - 1];
    let m = HoleInfo { addr: x.addr, size: (x.size + size) as usize };
    let n = holes.update(c - 1, m);
    assert forall|i: int, j: int| 0 <= i < j < n.len() implies (#[trigger] n[i]).addr + n[i].size
        <= (#[trigger] n[j]).addr by {
        if j == c - 1 {
            assert(holes[i].addr + holes[i].size <= holes[c - 1].addr);
        } else if i == c - 1 {
            assert(holes[c].addr <= holes[j].addr) by {
                if j > c {
                    assert(holes[c].addr + holes[c].size <= holes[j].addr);
                }
            }
        }
    }
    assert forall|v: int| #[trigger] is_free(n, v) == (is_free(holes, v) || (addr <= v < addr + size)) by {
        if is_free(n, v) {
            let k = choose|k: int| 0 <= k < n.len() && in_hole(#[trigger] n[k], v);
            if k != c - 1 {
                assert(in_hole(holes[k], v));
            } else if v < addr {
                assert(in_hole(holes[c - 1], v));
            }
        }
        if is_free(holes, v) {
            let k = choose|k: int| 0 <= k < holes.len() && in_hole(#[trigger] holes[k], v);
            assert(in_hole(n[k], v));
        }
        if addr <= v < addr + size {
            assert(in_hole(n[c - 1], v));
        }
    }
}

/// Taking hole `c`, which starts right behind the block, into the block.
proof fn lemma_absorb_next(holes: Seq<HoleInfo>, c: int, addr: int, size: int)
    requires
        holes_wf(holes),
        0 <= c < holes.len(),
        addr + size == holes[c].addr,
        forall|i: int| 0 <= i < c ==> (#[trigger] holes[i]).addr + holes[i].size <= addr,
        size > 0,
    ensures
        ({
            let n = holes.remove(c);
            let s2 = size + holes[c].size;
            &&& holes_wf(n)
            &&& addr + s2 <= usize::MAX
            &&& block_outside_holes(n, addr, s2)
            &&& forall|i: int| 0 <= i < c ==> (#[trigger] n[i]).addr + n[i].size <= addr
            &&& forall|v: int|
                (#[trigger] is_free(n, v) || (addr <= v < addr + s2)) == (is_free(holes, v) || (addr <= v
                    < addr + size))
        }),
{
    let n = holes.remove(c);
    let s2 = size + holes[c].size;
    assert forall|k: int| 0 <= k < n.len() implies #[trigger] n[k] == (if k < c {
        holes[k]
    } else {
        holes[k + 1]
    }) by {}
    assert forall|i: int, j: int| 0 <= i < j < n.len() implies (#[trigger] n[i]).addr + n[i].size
        <= (#[trigger] n[j]).addr by {
        if i < c && j >= c {
            assert(holes[i].addr + holes[i].size <= holes[j + 1].addr);
        }
    }
    assert forall|i: int| 0 <= i < n.len() implies (#[trigger] n[i]).addr + n[i].size <= addr || addr
        + s2 <= n[i].addr by {
        if i >= c {
            assert(holes[c].addr + holes[c].size <= holes[i + 1].addr);
        }
    }
    assert forall|v: int|
        (#[trigger] is_free(n, v) || (addr <= v < addr + s2)) == (is_free(holes, v) || (addr <= v < addr
            + size)) by {
        if is_free(n, v) {
            let k = choose|k: int| 0 <= k < n.len() && in_hole(#[trigger] n[k], v);
            if k < c {
                assert(in_hole(holes[k], v));
            } else {
                assert(in_hole(holes[k + 1], v));
            }
        }
        if is_free(holes, v) {
            let k = choose|k: int| 0 <= k < holes.len() && in_hole(#[trigger] holes[k], v);
            if k < c {
                assert(in_hole(n[k], v));
            } else if k > c {
                assert(in_hole(n[k - 1], v));
            }
        }
        if addr <= v < addr + s2 && !(addr <= v < addr + size) {
            assert(in_hole(holes[c], v));
        }
    }
}

/// Putting the block in as a hole of its own at position `c`.
proof fn lemma_insert_block(holes: Seq<HoleInfo>, c: int, addr: int, size: int)
    requires
        holes_wf(holes),
        0 <= c <= holes.len(),
        addr > 0,
        addr % 8 == 0,
        size > 0,
        addr + size <= usize::MAX,
        forall|i: int| 0 <= i < c ==> (#[trigger] holes[i]).addr + holes[i].size <= addr,
        c < holes.len() ==> addr + size <= holes[c].addr,
    ensures
        ({
            let n = holes.insert(c, HoleInfo { addr: addr as usize, size: size as usize });
            &&& holes_wf(n)
            &&& forall|v: int| #[trigger] is_free(n, v) == (is_free(holes, v) || (addr <= v < addr + size))
        }),
{
    let b = HoleInfo { addr: addr as usize, size: size as usize };
    let n = holes.insert(c, b);
    assert forall|k: int| 0 <= k < n.len() implies #[trigger] n[k] == (if k < c {
        holes[k]
    } else if k == c {
        b
    } else {
        holes[k - 1]
    }) by {}
    assert forall|i: int, j: int| 0 <= i < j < n.len() implies (#[trigger] n[i]).addr + n[i].size
        <= (#[trigger] n[j]).addr by {
        if i == c && j > c + 1 {
            assert(holes[c].addr + holes[c].size <= holes[j - 1].addr);
        } else if i < c && j > c {
            assert(holes[i].addr + holes[i].size <= holes[j - 1].addr);
        }
    }
    assert forall|v: int| #[trigger] is_free(n, v) == (is_free(holes, v) || (addr <= v < addr + size)) by {
        if is_free(n, v) {
            let k = choose|k: int| 0 <= k < n.len() && in_hole(#[trigger] n[k], v);
            if k < c {
                assert(in_hole(holes[k], v));
            } else if k > c {
                assert(in_hole(holes[k - 1], v));
            }
        }
        if is_free(holes, v) {
            let k = choose|k: int| 0 <= k < holes.len() && in_hole(#[trigger] holes[k], v);
            if k < c {
                assert(in_hole(n[k], v));
            } else {
                assert(in_hole(n[k + 1], v));
            }
        }
        if addr <= v < addr + size {
            assert(in_hole(n[c], v));
        }
    }
}


impl HoleList {
    /// Give back the block at `addr` that was allocated for `layout`; the padded layout
    /// that was really freed.
    pub fn deallocate(&mut self, addr: usize, layout: Layout) -> (r: Layout)
        requires
            holes_wf(old(self)@),
            layout.wf(),
            layout_ok(hole_size_for(layout.size_spec() as int), layout.align_spec() as int),
            addr > 0,
            addr % 8 == 0,
            addr + hole_size_for(layout.size_spec() as int) <= usize::MAX,
            block_outside_holes(old(self)@, addr as int, hole_size_for(layout.size_spec() as int)),
        ensures
            holes_wf(final(self)@),
            r.size_spec() == hole_size_for(layout.size_spec() as int),
            r.align_spec() == layout.align_spec(),
            forall|x: int|
                #[trigger] is_free(final(self)@, x) == (is_free(old(self)@, x) || (addr <= x < addr
                    + r.size_spec())),
    {
        let aligned_layout = align_layout_for_hole(layout);
        deallocate(&mut self.holes, addr, aligned_layout.size());
        aligned_layout
    }
}

/// A heap: its free holes, and how many bytes are handed out.
pub struct Heap {
    used: usize,
    holes: HoleList,
}

impl Heap {
    pub closed spec fn used_spec(&self) -> nat {
        self.used as nat
    }

    pub closed spec fn holes_spec(&self) -> Seq<HoleInfo> {
        self.holes@
    }

    /// A heap with no memory.
    pub fn empty() -> (r: Self)
        ensures
            r.used_spec() == 0,
            r.holes_spec() == Seq::<HoleInfo>::empty(),
            holes_wf(r.holes_spec()),
    {
        Heap { used: 0, holes: HoleList::empty() }
    }

    /// Use the `heap_size` bytes from `heap_bottom` as the heap.
    pub fn init(&mut self, heap_bottom: usize, heap_size: usize)
        requires
            heap_bottom > 0,
            heap_size >= 8,
            heap_bottom + heap_size + 8 <= usize::MAX,
        ensures
            final(self).used_spec() == 0,
            holes_wf(final(self).holes_spec()),
            final(self).holes_spec() == seq![
                HoleInfo {
                    addr: align_up_spec(heap_bottom as int, 8) as usize,
                    size: (heap_size - (align_up_spec(heap_bottom as int, 8) - heap_bottom)) as usize,
                },
            ],
    {
        self.used = 0;
        self.holes.init(heap_bottom, heap_size);
    }

    /// Allocate a block for `layout` from the first hole that fits; its address.
    pub fn allocate_first_fit(&mut self, layout: Layout) -> (r: Result<usize, ()>)
        requires
            holes_wf(old(self).holes_spec()),
            layout.wf(),
            layout_ok(hole_size_for(layout.size_spec() as int), layout.align_spec() as int),
            searched_splits_fit(
                old(self).holes_spec(),
                hole_size_for(layout.size_spec() as int),
                layout.align_spec() as int,
            ),
            old(self).used_spec() + hole_size_for(layout.size_spec() as int) <= usize::MAX,
        ensures
            holes_wf(final(self).holes_spec()),
            r is Err ==> final(self).holes_spec() == old(self).holes_spec() && final(self).used_spec()
                == old(self).used_spec(),
            r matches Ok(addr) ==> {
                let block = HoleInfo { addr, size: hole_size_for(layout.size_spec() as int) as usize };
                &&& addr > 0
                &&& (addr as int) % (layout.align_spec() as int) == 0
                &&& final(self).used_spec() == old(self).used_spec() + hole_size_for(layout.size_spec() as int)
                &&& forall|x: int| in_hole(block, x) ==> #[trigger] is_free(old(self).holes_spec(), x)
                &&& forall|x: int|
                    #[trigger] is_free(final(self).holes_spec(), x) == (is_free(old(self).holes_spec(), x)
                        && !in_hole(block, x))
            },
            (exists|i: int|
                0 <= i < old(self).holes_spec().len() && split_hole_spec(
                    #[trigger] old(self).holes_spec()[i],
                    hole_size_for(layout.size_spec() as int),
                    layout.align_spec() as int,
                ) is Some) <==> r is Ok,
    {
        match self.holes.allocate_first_fit(layout) {
            Ok((addr, aligned_layout)) => {
                self.used = self.used + aligned_layout.size();
                Ok(addr)
            },
            Err(e) => Err(e),
        }
    }

    /// Give back the block at `addr` that was allocated for `layout`.
    pub fn deallocate(&mut self, addr: usize, layout: Layout)
        requires
            holes_wf(old(self).holes_spec()),
            layout.wf(),
            layout_ok(hole_size_for(layout.size_spec() as int), layout.align_spec() as int),
            addr > 0,
            addr % 8 == 0,
            addr + hole_size_for(layout.size_spec() as int) <= usize::MAX,
            block_outside_holes(old(self).holes_spec(), addr as int, hole_size_for(layout.size_spec() as int)),
            old(self).used_spec() >= hole_size_for(layout.size_spec() as int),
        ensures
            holes_wf(final(self).holes_spec()),
            final(self).used_spec() == old(self).used_spec() - hole_size_for(layout.size_spec() as int),
            forall|x: int|
                #[trigger] is_free(final(self).holes_spec(), x) == (is_free(old(self).holes_spec(), x) || (addr
                    <= x < addr + hole_size_for(layout.size_spec() as int))),
    {
        let freed = self.holes.deallocate(addr, layout);
        self.used = self.used - freed.size();
    }
}


/// Law: a block just handed out overlaps none of the remaining holes, so it may be given
/// back.
pub proof fn law_allocated_block_can_be_freed(holes: Seq<HoleInfo>, addr: int, size: int)
    requires
        holes_wf(holes),
        size > 0,
        forall|x: int| addr <= x < addr + size ==> !#[trigger] is_free(holes, x),
    ensures
        block_outside_holes(holes, addr, size),
{
    assert forall|i: int| 0 <= i < holes.len() implies (#[trigger] holes[i]).addr + holes[i].size <= addr
        || addr + size <= holes[i].addr by {
        let h = holes[i];
        if !(h.addr + h.size <= addr || addr + size <= h.addr) {
            let x = if h.addr <= addr { addr } else { h.addr as int };
            assert(in_hole(holes[i], x));
            assert(is_free(holes, x));
        }
    }
}

/// Law: giving back a block right after it was handed out leaves exactly the memory that
/// was free before the allocation free.
pub proof fn law_allocate_then_deallocate_restores_free_memory(
    before: Seq<HoleInfo>,
    allocated: Seq<HoleInfo>,
    after: Seq<HoleInfo>,
    block: HoleInfo,
)
    requires
        forall|x: int| in_hole(block, x) ==> #[trigger] is_free(before, x),
        forall|x: int| #[trigger] is_free(allocated, x) == (is_free(before, x) && !in_hole(block, x)),
        forall|x: int| #[trigger] is_free(after, x) == (is_free(allocated, x) || in_hole(block, x)),
    ensures
        forall|x: int| #[trigger] is_free(after, x) == is_free(before, x),
{
    assert forall|x: int| #[trigger] is_free(after, x) == is_free(before, x) by {
        assert(is_free(allocated, x) == (is_free(before, x) && !in_hole(block, x)));
        if in_hole(block, x) {
            assert(is_free(before, x));
        }
    }
}

} // verus!
