//! Information handed from the boot loader to the kernel.

use vstd::prelude::*;
use vstd::utf8::{decode_utf8, valid_utf8};
use vstd::string::StrSliceExecFns;

verus! {

/// The longest name a root object can have, in bytes.
pub const MAX_OBJECT_NAME_LEN: usize = 32;

/// The layout of the bytes of each pixel in a framebuffer.
#[derive(Clone, Copy, Debug, PartialEq, Eq, Structural)]
pub enum PixelFormat {
    /// No known layout.
    Unspecified,
    Rgb,
    Bgr,
}

/// The display that the boot loader set up.
#[derive(Clone, Copy, Debug)]
pub struct DisplayInfo {
    pub width: u32,
    pub height: u32,
    pub stride: u32,
    pub format: PixelFormat,
    pub framebuffer_addr: u64,
    pub framebuffer_size: usize,
}

/// What a region of physical memory is used for.
#[derive(Clone, Copy, Debug, PartialEq, Eq, Structural)]
pub enum MemoryRegionKind {
    Free,
    Bootloader,
    Uefi(u32),
}

/// A region of physical memory.
#[derive(Clone, Copy, Debug, PartialEq, Eq, Structural)]
pub struct MemoryRegion {
    pub base: usize,
    pub size: usize,
    pub kind: MemoryRegionKind,
}

/// The regions of physical memory, as the firmware described them.
#[derive(Debug)]
pub struct MemoryMap {
    pub regions: Vec<MemoryRegion>,
}

impl MemoryMap {
    pub fn new(regions: Vec<MemoryRegion>) -> (r: Self)
        ensures
            r.regions@ == regions@,
    {
        MemoryMap { regions }
    }
}

/// An object (a module's file) that the boot loader placed in memory.
#[derive(Clone, Copy, Debug, PartialEq, Eq)]
pub struct RootObjectInfo {
    pub name: [u8; 32],
    pub addr: usize,
    pub size: usize,
}

/// The objects that the boot loader placed in memory.
#[derive(Debug)]
pub struct RootObjectMap {
    pub objects: Vec<RootObjectInfo>,
}

/// Everything the boot loader tells the kernel.
#[derive(Debug)]
pub struct BootInfo {
    pub rsdp_address: Option<u64>,
    pub kernel_start: usize,
    pub kernel_end: usize,
    pub memory_map: MemoryMap,
    pub root_object_map: RootObjectMap,
    pub display_info: DisplayInfo,
}

/// `s` without the NUL characters at its start and end.
pub open spec fn trim_nuls(s: Seq<char>) -> Seq<char>
    decreases s.len(),
{
    if s.len() > 0 && s[0] == '\0' {
        trim_nuls(s.drop_first())
    } else if s.len() > 0 && s.last() == '\0' {
        trim_nuls(s.drop_last())
    } else {
        s
    }
}

/// `core::str::from_utf8`: the bytes read as a string when they are valid UTF-8.
#[verifier::external_body]
pub(crate) fn str_from_utf8(bytes: &[u8]) -> (r: Option<&str>)
    ensures
        r is Some <==> valid_utf8(bytes@),
        r matches Some(s) ==> s@ == decode_utf8(bytes@),
{
    core::str::from_utf8(bytes).ok()
}

/// Leading NULs do not change what `trim_nuls` keeps.
proof fn lemma_trim_leading(s: Seq<char>, k: int)
    requires
        0 <= k <= s.len(),
        forall|m: int| 0 <= m < k ==> s[m] == '\0',
    ensures
        trim_nuls(s) == trim_nuls(s.subrange(k, s.len() as int)),
    decreases k,
{
    if k > 0 {
        assert(s.drop_first() =~= s.subrange(1, s.len() as int));
        lemma_trim_leading(s.drop_first(), k - 1);
        assert(s.drop_first().subrange(k - 1, s.drop_first().len() as int) =~= s.subrange(k, s.len() as int));
    } else {
        assert(s.subrange(0, s.len() as int) =~= s);
    }
}

/// Once the first character is not a NUL, `trim_nuls` drops the trailing NULs and nothing
/// else.
proof fn lemma_trim_trailing(s: Seq<char>, j: int)
    requires
        1 <= j <= s.len(),
        s[0] != '\0',
        s[j - 1] != '\0',
        forall|m: int| j <= m < s.len() ==> s[m] == '\0',
    ensures
        trim_nuls(s) == s.subrange(0, j),
    decreases s.len(),
{
    if j < s.len() {
        assert(s.drop_last() =~= s.subrange(0, s.len() - 1));
        lemma_trim_trailing(s.drop_last(), j);
        assert(s.drop_last().subrange(0, j) =~= s.subrange(0, j));
    } else {
        assert(s.subrange(0, j) =~= s);
    }
}

/// The string with every leading and trailing NUL removed, as `str::trim_matches('\0')`
/// gives it.
fn str_trim_nuls(s: &str) -> (r: &str)
    ensures
        r@ == trim_nuls(s@),
{
    let n = s.unicode_len();
    let mut i: usize = 0;
    while i < n && s.get_char(i) == '\0'
        invariant
            n == s@.len(),
            i <= n,
            forall|m: int| 0 <= m < i ==> s@[m] == '\0',
        decreases n - i,
    {
        i = i + 1;
    }
    let mut j: usize = n;
    while j > i && s.get_char(j - 1) == '\0'
        invariant
            n == s@.len(),
            i <= j <= n,
            forall|m: int| j <= m < n ==> s@[m] == '\0',
        decreases j,
    {
        j = j - 1;
    }
    let r = s.substring_char(i, j);
    proof {
        lemma_trim_leading(s@, i as int);
        let t = s@.subrange(i as int, n as int);
        if j > i {
            lemma_trim_trailing(t, j - i);
            assert(t.subrange(0, j - i) =~= r@);
        } else {
            assert(r@ =~= Seq::<char>::empty());
            if t.len() > 0 {
                lemma_trim_leading(t, t.len() as int);
                assert(t.subrange(t.len() as int, t.len() as int) =~= Seq::<char>::empty());
            }
            assert(trim_nuls(Seq::<char>::empty()) == Seq::<char>::empty());
        }
    }
    r
}

impl RootObjectInfo {
    /// The object's name: its bytes as text, without the NUL padding.
    pub fn name_str(&self) -> (r: &str)
        requires
            valid_utf8(self.name@),
        ensures
            r@ == trim_nuls(decode_utf8(self.name@)),
    {
        let s = str_from_utf8(self.name.as_slice());
        match s {
            Some(s) => str_trim_nuls(s),
            None => {
                assert(false);
                ""
            },
        }
    }
}

} // verus!
