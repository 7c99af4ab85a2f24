//! Loading relocatable objects: where each allocated section of an object goes in the
//! object's mappings, under which name, and how its relocations are written.
//!
//! An object is described by its section headers and its symbols, as plain values; the bytes
//! themselves are copied by the caller, as the returned layout says.

use vstd::prelude::*;
use vstd::string::{StrSliceExecFns, StringExecFns};
use crate::fs::{listed_paths, read_bytes, FileSystem};
use crate::frame_allocator::FrameAllocator;
use crate::memory::{some_page_mapped, fits_address_space, mapping_fits, spaces_with, AddressSpace, KernelMapping};
use crate::memory_tracker::MemoryTracker;
use crate::memory_types::{canonical, div_ceil, VirtualAddress};
use crate::memory_types::FrameAllocator as AllocateFrame;
use crate::paging::{Level4PageTable, hierarchy, slots_between, MappingError, PageRange, PageTableFlags, PRESENT_BIT, USER_ACCESSIBLE_BIT, WRITABLE_BIT};
use crate::vfat::{has_prefix, str_starts_with};

verus! {

/// The section is writable.
pub const SHF_WRITE: u64 = 0x1;
/// The section takes memory when the object is loaded.
pub const SHF_ALLOC: u64 = 0x2;
/// The section holds executable code.
pub const SHF_EXECINSTR: u64 = 0x4;
/// The section holds thread-local data.
pub const SHF_TLS: u64 = 0x400;

/// A section whose bytes the object holds.
pub const SHT_PROGBITS: u32 = 1;
/// A section of relocation entries with addends.
pub const SHT_RELA: u32 = 4;
/// A section that takes memory but holds no bytes in the object.
pub const SHT_NOBITS: u32 = 8;

/// A symbol seen outside its object.
pub const STB_GLOBAL: u8 = 1;
/// A symbol that names data.
pub const STT_OBJECT: u8 = 1;
/// A symbol that names a function.
pub const STT_FUNC: u8 = 2;
/// A symbol that names thread-local data.
pub const STT_TLS: u8 = 6;

/// The type of a loaded section.
#[derive(Clone, Copy, Debug, PartialEq, Eq, Structural)]
pub enum SectionKind {
    /// Executable code.
    Text,
    /// Immutable program data.
    Rodata,
    /// Mutable program data.
    Data,
    /// Uninitialized program data.
    Bss,
    /// Thread-local data.
    TlsData,
    TlsBss,
    GccExceptTable,
    /// Exception handling (unwind) information.
    EhFrame,
}

/// The section name that goes with each kind.
pub open spec fn kind_name(kind: SectionKind) -> Seq<char> {
    match kind {
        SectionKind::Text => ".text"@,
        SectionKind::Rodata => ".rodata"@,
        SectionKind::Data => ".data"@,
        SectionKind::Bss => ".bss"@,
        SectionKind::TlsData => ".tdata"@,
        SectionKind::TlsBss => ".tbss"@,
        SectionKind::GccExceptTable => ".gcc_except_table"@,
        SectionKind::EhFrame => ".eh_frame"@,
    }
}

impl SectionKind {
    pub fn name(&self) -> (r: &'static str)
        ensures
            r@ == kind_name(*self),
    {
        match self {
            SectionKind::Text => ".text",
            SectionKind::Rodata => ".rodata",
            SectionKind::Data => ".data",
            SectionKind::Bss => ".bss",
            SectionKind::TlsData => ".tdata",
            SectionKind::TlsBss => ".tbss",
            SectionKind::GccExceptTable => ".gcc_except_table",
            SectionKind::EhFrame => ".eh_frame",
        }
    }
}

/// Something that lists objects and reads their bytes.
pub trait ObjectProvider {
    /// The names of the objects that start with `prefix`.
    fn list_objects(&self, prefix: &str) -> Result<Vec<String>, &'static str>;

    /// The bytes of the object named `name`.
    fn read_object(&mut self, name: &str) -> Result<Vec<u8>, &'static str>;
}

/// The path of the object file of the object `name`: `/`, the name and `.o`.
pub open spec fn object_file_path(name: Seq<char>) -> Seq<char> {
    "/"@ + name + ".o"@
}

/// `/`, `name` and `.o`.
pub fn object_file_name(name: &str) -> (r: String)
    ensures
        r@ == object_file_path(name@),
{
    let mut path = String::new();
    path.append("/");
    path.append(name);
    path.append(".o");
    path
}

/// Where the object `name` is read from: `name` itself when it starts with `/`; otherwise
/// the path among `listing` that is `/`, `name` and `.o`, and an error when none is.
pub fn object_path(name: &str, listing: &Vec<String>) -> (r: Result<String, &'static str>)
    ensures
        has_prefix(name@, "/"@) ==> (r matches Ok(path) && path@ == name@),
        !has_prefix(name@, "/"@) && listing@.map_values(|p: String| p@).contains(
            object_file_path(name@),
        ) ==> (r matches Ok(path) && path@ == object_file_path(name@)),
        !has_prefix(name@, "/"@) && !listing@.map_values(|p: String| p@).contains(
            object_file_path(name@),
        ) ==> r is Err,
{
    if str_starts_with(name, "/") {
        return Ok(name.to_string());
    }
    let wanted = object_file_name(name);
    let mut i: usize = 0;
    while i < listing.len()
        invariant
            i <= listing@.len(),
            wanted@ == object_file_path(name@),
            !has_prefix(name@, "/"@),
            forall|j: int| 0 <= j < i ==> listing@[j]@ != wanted@,
        decreases listing@.len() - i,
    {
        if str_eq(listing[i].as_str(), wanted.as_str()) {
            proof {
                assert(listing@.map_values(|p: String| p@)[i as int] == wanted@);
            }
            return Ok(wanted);
        }
        i = i + 1;
    }
    proof {
        let paths = listing@.map_values(|p: String| p@);
        if paths.contains(wanted@) {
            let j = choose|j: int| 0 <= j < paths.len() && #[trigger] paths[j] == wanted@;
            assert(listing@[j]@ == paths[j]);
        }
    }
    Err("no object found")
}

/// The objects of a file system: each object is the file `/`, its name and `.o`.
pub struct GlobalObjectProvider<F: FileSystem> {
    fs: F,
}

impl<F: FileSystem> GlobalObjectProvider<F> {
    pub fn new(fs: F) -> (r: Self)
        ensures
            r.fs() == fs,
    {
        GlobalObjectProvider { fs }
    }

    /// The file system the objects are read from.
    pub closed spec fn fs(&self) -> F {
        self.fs
    }
}

impl<F: FileSystem> ObjectProvider for GlobalObjectProvider<F> {
    /// The paths the file system lists under `/` and `prefix`.
    fn list_objects(&self, prefix: &str) -> (r: Result<Vec<String>, &'static str>)
        ensures
            self.fs().listing("/"@ + prefix@, listed_paths(r)),
    {
        proof {
            reveal_strlit("/");
        }
        let mut dir = String::new();
        dir.append("/");
        dir.append(prefix);
        self.fs.list(dir.as_str())
    }

    /// The bytes of the file `name` when it starts with `/`; otherwise of the file listed
    /// under `/` and `name` that is `/`, `name` and `.o`, as [`object_path`] finds it.
    fn read_object(&mut self, name: &str) -> (r: Result<Vec<u8>, &'static str>)
        ensures
            has_prefix(name@, "/"@) ==> old(self).fs().reading(name@, read_bytes(r)),
            !has_prefix(name@, "/"@) ==> exists|listing: Option<Seq<Seq<char>>>|
                #[trigger] old(self).fs().listing("/"@ + name@, listing) && match listing {
                    Some(paths) => if paths.contains(object_file_path(name@)) {
                        old(self).fs().reading(object_file_path(name@), read_bytes(r))
                    } else {
                        r is Err
                    },
                    None => r is Err,
                },
    {
        if str_starts_with(name, "/") {
            return self.fs.read(name);
        }
        let listing = self.list_objects(name);
        let ghost seen = listed_paths(listing);
        let paths = match listing {
            Ok(paths) => paths,
            Err(e) => return Err(e),
        };
        let path = match object_path(name, &paths) {
            Ok(path) => path,
            Err(e) => return Err(e),
        };
        self.fs.read(path.as_str())
    }
}

/// A section header of a relocatable ELF object.
#[derive(Clone, Debug)]
pub struct SectionHeader {
    pub name: String,
    pub flags: u64,
    pub section_type: u32,
    pub offset: usize,
    pub size: usize,
    pub align: usize,
}

/// `value` rounded up to a multiple of `align` (`usize::next_multiple_of`).
pub open spec fn round_up(value: int, align: int) -> int {
    if value % align == 0 {
        value
    } else {
        value + (align - value % align)
    }
}

/// `usize::next_multiple_of`, when the result fits.
pub fn next_multiple_of(value: usize, align: usize) -> (r: Option<usize>)
    requires
        align > 0,
    ensures
        r matches Some(v) ==> v == round_up(value as int, align as int),
        r is None <==> round_up(value as int, align as int) > usize::MAX,
{
    let rem = value % align;
    if rem == 0 {
        Some(value)
    } else {
        value.checked_add(align - rem)
    }
}

/// The section whose size, alignment and offset stand for section `i`: a zero-sized section
/// stands for the next one when the next one starts at the same offset. A zero-sized
/// section with no next one has none; `text_kept` keeps a zero-sized section named ".text"
/// as it is.
pub open spec fn resolved_section(sections: Seq<SectionHeader>, i: int, text_kept: bool) -> Option<
    SectionHeader,
> {
    let s = sections[i];
    if s.size == 0 && !(text_kept && s.name@ == ".text"@) {
        if i + 1 < sections.len() {
            if sections[i + 1].offset == s.offset {
                Some(sections[i + 1])
            } else {
                Some(s)
            }
        } else {
            None
        }
    } else {
        Some(s)
    }
}

/// The lengths of the executable, read-only and read-write mappings that the first `n`
/// sections need, or none when a zero-sized section has no next one or a length overflows.
/// Code goes up to the end of the furthest text section; thread-local data that the object
/// holds, read-only data, exception tables and unwind information go one after the other in
/// the read-only mapping; writable data in the read-write one; each section rounded up to its
/// alignment.
pub open spec fn mapping_lengths(sections: Seq<SectionHeader>, n: int) -> Option<(int, int, int)>
    decreases n,
{
    if n <= 0 {
        Some((0, 0, 0))
    } else {
        match mapping_lengths(sections, n - 1) {
            None => None,
            Some((x, r, w)) => {
                let s = sections[n - 1];
                if s.flags & SHF_ALLOC == 0 {
                    Some((x, r, w))
                } else {
                    match resolved_section(sections, n - 1, true) {
                        None => None,
                        Some(t) => {
                            let addend = round_up(t.size as int, t.align as int);
                            if addend > usize::MAX {
                                None
                            } else if s.flags & SHF_EXECINSTR == SHF_EXECINSTR {
                                if t.offset + addend > usize::MAX {
                                    None
                                } else if x < t.offset + addend {
                                    Some((t.offset + addend, r, w))
                                } else {
                                    Some((x, r, w))
                                }
                            } else if s.flags & SHF_TLS == SHF_TLS {
                                if t.section_type != SHT_PROGBITS {
                                    Some((x, r, w))
                                } else if r + addend > usize::MAX {
                                    None
                                } else {
                                    Some((x, r + addend, w))
                                }
                            } else if s.flags & SHF_WRITE == SHF_WRITE {
                                if w + addend > usize::MAX {
                                    None
                                } else {
                                    Some((x, r, w + addend))
                                }
                            } else if r + addend > usize::MAX {
                                None
                            } else {
                                Some((x, r + addend, w))
                            }
                        },
                    }
                }
            },
        }
    }
}

/// Once the first `k` sections need mappings too long, so do the first `m`, for `m` at least `k`.
proof fn lemma_mapping_lengths_fail(sections: Seq<SectionHeader>, k: int, m: int)
    requires
        0 <= k <= m,
        mapping_lengths(sections, k) is None,
    ensures
        mapping_lengths(sections, m) is None,
    decreases m - k,
{
    if m > k {
        lemma_mapping_lengths_fail(sections, k, m - 1);
    }
}

/// Every section that takes memory has a nonzero alignment, and so does the section that
/// stands for it when it is zero-sized (the next one, at the same offset). Sections that take
/// no memory, such as the null section at index 0, may have any alignment.
pub open spec fn aligned_sections(sections: Seq<SectionHeader>) -> bool {
    forall|i: int|
        0 <= i < sections.len() && (#[trigger] sections[i]).flags & SHF_ALLOC != 0 ==> sections[i].align
            > 0 && (sections[i].size == 0 && i + 1 < sections.len() && sections[i + 1].offset
            == sections[i].offset ==> sections[i + 1].align > 0)
}

/// Whether `name` is exactly ".text".
fn is_text_name(name: &str) -> (r: bool)
    ensures
        r == (name@ == ".text"@),
{
    let text = ".text";
    proof {
        reveal_strlit(".text");
    }
    let same_len = name.unicode_len() == text.unicode_len();
    let r = same_len && str_starts_with(name, text);
    proof {
        if name@.len() == text@.len() && has_prefix(name@, text@) {
            assert(name@ =~= name@.subrange(0, text@.len() as int));
        }
        if name@ == text@ {
            assert(name@.subrange(0, text@.len() as int) =~= text@);
        }
    }
    r
}

/// The lengths of the executable, read-only and read-write mappings that `sections` need.
pub fn section_mapping_lengths(sections: &[SectionHeader]) -> (r: Result<
    (usize, usize, usize),
    &'static str,
>)
    requires
        aligned_sections(sections@),
    ensures
        r is Ok <==> mapping_lengths(sections@, sections@.len() as int) is Some,
        r matches Ok((x, ro, rw)) ==> mapping_lengths(sections@, sections@.len() as int) == Some(
            (x as int, ro as int, rw as int),
        ),
{
    let mut x: usize = 0;
    let mut ro: usize = 0;
    let mut rw: usize = 0;
    let mut i: usize = 0;
    while i < sections.len()
        invariant
            i <= sections@.len(),
            aligned_sections(sections@),
            mapping_lengths(sections@, i as int) == Some((x as int, ro as int, rw as int)),
        decreases sections@.len() - i,
    {
        let s = &sections[i];
        if s.flags & SHF_ALLOC != 0 {
            let t = if s.size == 0 && !is_text_name(s.name.as_str()) {
                if i + 1 < sections.len() {
                    if sections[i + 1].offset == s.offset {
                        &sections[i + 1]
                    } else {
                        s
                    }
                } else {
                    proof {
                        lemma_mapping_lengths_fail(sections@, i + 1, sections@.len() as int);
                    }
                    return Err("couldn't get next section for a zero-sized section");
                }
            } else {
                s
            };
            let addend = match next_multiple_of(t.size, t.align) {
                Some(a) => a,
                None => {
                    proof {
                        lemma_mapping_lengths_fail(sections@, i + 1, sections@.len() as int);
                    }
                    return Err("section size overflows");
                },
            };
            let grown = if s.flags & SHF_EXECINSTR == SHF_EXECINSTR {
                match t.offset.checked_add(addend) {
                    Some(end) => {
                        if x < end {
                            x = end;
                        }
                        true
                    },
                    None => false,
                }
            } else if s.flags & SHF_TLS == SHF_TLS {
                if t.section_type == SHT_PROGBITS {
                    match ro.checked_add(addend) {
                        Some(v) => {
                            ro = v;
                            true
                        },
                        None => false,
                    }
                } else {
                    true
                }
            } else if s.flags & SHF_WRITE == SHF_WRITE {
                match rw.checked_add(addend) {
                    Some(v) => {
                        rw = v;
                        true
                    },
                    None => false,
                }
            } else {
                match ro.checked_add(addend) {
                    Some(v) => {
                        ro = v;
                        true
                    },
                    None => false,
                }
            };
            if !grown {
                proof {
                    lemma_mapping_lengths_fail(sections@, i + 1, sections@.len() as int);
                }
                return Err("section size overflows");
            }
        }
        i = i + 1;
    }
    Ok((x, ro, rw))
}

/// The mappings an object's sections are loaded into; one is missing when no section needs it.
pub struct SectionMappings {
    pub executable: Option<KernelMapping>,
    pub read_only: Option<KernelMapping>,
    pub read_write: Option<KernelMapping>,
}

/// Whether `k` starts at the page of `offset`, takes as many whole pages as its size needs,
/// and is present, writable and user accessible.
pub open spec fn mapping_placed(k: KernelMapping, offset: u64) -> bool {
    &&& k.pages.start@ == canonical(offset) / 4096
    &&& k.pages.end@ == k.pages.start@ + div_ceil(k.size as int, 4096)
    &&& k.flags@ == PRESENT_BIT | WRITABLE_BIT | USER_ACCESSIBLE_BIT
}

/// The mappings for sections that need `x`, `ro` and `rw` bytes of code, read-only and
/// writable data fit, placed one after the other from `offset`: their end is a `u64`, and
/// each one that is made fits the address space.
pub open spec fn mappings_fit(offset: u64, x: int, ro: int, rw: int) -> bool {
    let dx = div_ceil(x, 4096);
    let dro = div_ceil(ro, 4096);
    let drw = div_ceil(rw, 4096);
    &&& offset + (dx + dro + drw) * 4096 <= u64::MAX
    &&& x > 0 ==> mapping_fits(offset, dx)
    &&& ro > 0 ==> mapping_fits((offset + dx * 4096) as u64, dro)
    &&& rw > 0 ==> mapping_fits((offset + (dx + dro) * 4096) as u64, drw)
}

/// The address spaces of a tracker once the mappings of `m` that are made are recorded, in
/// order, for the address space `space` whose level 4 table is in `frame`.
pub open spec fn spaces_with_mappings(
    spaces: Map<(Seq<char>, u64), Seq<(Seq<char>, PageRange)>>,
    space: Seq<char>,
    frame: u64,
    m: SectionMappings,
) -> Map<(Seq<char>, u64), Seq<(Seq<char>, PageRange)>> {
    let s1 = match m.executable {
        Some(k) => spaces_with(spaces, space, frame, k.name@, k.pages),
        None => spaces,
    };
    let s2 = match m.read_only {
        Some(k) => spaces_with(s1, space, frame, k.name@, k.pages),
        None => s1,
    };
    match m.read_write {
        Some(k) => spaces_with(s2, space, frame, k.name@, k.pages),
        None => s2,
    }
}

/// Why mapping an object's sections failed: the frame allocator ran out.
pub const OUT_OF_FRAMES: &'static str = "out of frames for the object's sections";
/// Why mapping an object's sections failed: one of their pages was mapped already.
pub const PAGE_MAPPED_ALREADY: &'static str = "a page of the object's sections is mapped already";
/// Why mapping an object's sections failed: their pages lie under a huge page.
pub const UNDER_HUGE_PAGE: &'static str = "the object's sections lie under a huge page";

/// The reason a failed mapping gives for an object's sections.
pub fn mapping_failure(e: MappingError) -> (r: &'static str)
    ensures
        r == match e {
            MappingError::FrameAllocationFailed => OUT_OF_FRAMES,
            MappingError::PageAlreadyMapped { .. } => PAGE_MAPPED_ALREADY,
            MappingError::MappedToHugePage => UNDER_HUGE_PAGE,
        },
{
    match e {
        MappingError::FrameAllocationFailed => OUT_OF_FRAMES,
        MappingError::PageAlreadyMapped { .. } => PAGE_MAPPED_ALREADY,
        MappingError::MappedToHugePage => UNDER_HUGE_PAGE,
    }
}

/// The level 4 entries that the mappings for sections of `x`, `ro` and `rw` bytes, placed one
/// after the other from `offset`, lie under: those of each mapping that is made.
pub open spec fn section_slots(offset: u64, x: int, ro: int, rw: int) -> Set<int> {
    let dx = div_ceil(x, 4096);
    let dro = div_ceil(ro, 4096);
    let drw = div_ceil(rw, 4096);
    let b1 = (canonical(offset) / 4096) as int;
    let b2 = (canonical((offset + dx * 4096) as u64) / 4096) as int;
    let b3 = (canonical((offset + (dx + dro) * 4096) as u64) / 4096) as int;
    let s1 = if x > 0 { slots_between(b1, b1 + dx) } else { Set::<int>::empty() };
    let s2 = if ro > 0 { slots_between(b2, b2 + dro) } else { Set::<int>::empty() };
    let s3 = if rw > 0 { slots_between(b3, b3 + drw) } else { Set::<int>::empty() };
    s1.union(s2).union(s3)
}

/// Some page of the mappings for sections of `x`, `ro` and `rw` bytes, placed one after the
/// other from `offset`, is mapped in `pt`.
pub open spec fn section_page_mapped(pt: Level4PageTable, offset: u64, x: int, ro: int, rw: int) -> bool {
    let dx = div_ceil(x, 4096);
    let dro = div_ceil(ro, 4096);
    let drw = div_ceil(rw, 4096);
    let b1 = (canonical(offset) / 4096) as int;
    let b2 = (canonical((offset + dx * 4096) as u64) / 4096) as int;
    let b3 = (canonical((offset + (dx + dro) * 4096) as u64) / 4096) as int;
    ||| some_page_mapped(pt, b1, b1 + dx)
    ||| some_page_mapped(pt, b2, b2 + dro)
    ||| some_page_mapped(pt, b3, b3 + drw)
}

/// The kernel mappings, named after the object and placed from `next_offset` on, that the
/// sections of an object need: "<object>.x" for code, "<object>.r" for read-only data,
/// "<object>.w" for writable data; all of them present, writable and user accessible, each
/// mapped in the kernel's address space `kernel` as [`KernelMapping::new`] does.
pub fn allocate_section_mappings(
    object_name: &str,
    sections: &[SectionHeader],
    next_offset: &mut u64,
    kernel: &mut AddressSpace,
    allocator: &mut FrameAllocator,
    tracker: &mut MemoryTracker,
) -> (r: Result<SectionMappings, &'static str>)
    requires
        aligned_sections(sections@),
        old(kernel).page_table.wf(),
        old(allocator).wf(),
    ensures
        final(kernel).name == old(kernel).name,
        final(kernel).frame == old(kernel).frame,
        final(kernel).page_table.wf(),
        final(allocator).wf(),
        r is Ok ==> (mapping_lengths(sections@, sections@.len() as int) matches Some((x, ro, rw))
            && mappings_fit(*old(next_offset), x, ro, rw)),
        !(mapping_lengths(sections@, sections@.len() as int) matches Some((x, ro, rw))
            && mappings_fit(*old(next_offset), x, ro, rw)) ==> r is Err && *final(next_offset)
            == *old(next_offset) && *final(tracker) == *old(tracker),
        (mapping_lengths(sections@, sections@.len() as int) matches Some((x, ro, rw))
            && mappings_fit(*old(next_offset), x, ro, rw)) && r is Err ==> r == Err::<
            SectionMappings,
            &'static str,
        >(OUT_OF_FRAMES) || r == Err::<SectionMappings, &'static str>(PAGE_MAPPED_ALREADY) || r == Err::<
            SectionMappings,
            &'static str,
        >(UNDER_HUGE_PAGE),
        (mapping_lengths(sections@, sections@.len() as int) matches Some((x, ro, rw))
            && mappings_fit(*old(next_offset), x, ro, rw) && hierarchy(
            old(kernel).page_table,
            *old(allocator),
            section_slots(*old(next_offset), x, ro, rw),
        )) && r is Err ==> (r == Err::<SectionMappings, &'static str>(OUT_OF_FRAMES)
            && AllocateFrame::exhausted(&*final(allocator))) || r == Err::<SectionMappings, &'static str>(
            PAGE_MAPPED_ALREADY,
        ),
        mapping_lengths(sections@, sections@.len() as int) matches Some((x, ro, rw)) ==> (mappings_fit(
            *old(next_offset),
            x,
            ro,
            rw,
        ) && hierarchy(old(kernel).page_table, *old(allocator), section_slots(*old(next_offset), x, ro, rw))
            && r == Err::<SectionMappings, &'static str>(PAGE_MAPPED_ALREADY) ==> section_page_mapped(
            final(kernel).page_table,
            *old(next_offset),
            x,
            ro,
            rw,
        )),
        r matches Ok(m) ==> {
            let (x, ro, rw) = mapping_lengths(sections@, sections@.len() as int)->0;
            &&& (m.executable is Some <==> x > 0)
            &&& (m.read_only is Some <==> ro > 0)
            &&& (m.read_write is Some <==> rw > 0)
            &&& (m.executable matches Some(k) ==> k.size == x && k.name@ == object_name@ + ".x"@)
            &&& (m.read_only matches Some(k) ==> k.size == ro && k.name@ == object_name@ + ".r"@)
            &&& (m.read_write matches Some(k) ==> k.size == rw && k.name@ == object_name@ + ".w"@)
            &&& *final(next_offset) == *old(next_offset) + (div_ceil(x, 4096) + div_ceil(ro, 4096)
                + div_ceil(rw, 4096)) * 4096
            &&& (m.executable matches Some(k) ==> mapping_placed(k, *old(next_offset)))
            &&& (m.read_only matches Some(k) ==> mapping_placed(
                k,
                (*old(next_offset) + div_ceil(x, 4096) * 4096) as u64,
            ))
            &&& (m.read_write matches Some(k) ==> mapping_placed(
                k,
                (*old(next_offset) + (div_ceil(x, 4096) + div_ceil(ro, 4096)) * 4096) as u64,
            ))
            &&& final(tracker).spaces() == spaces_with_mappings(
                old(tracker).spaces(),
                old(kernel).name@,
                old(kernel).frame@,
                m,
            )
            &&& final(tracker).pci_bars() == old(tracker).pci_bars()
            &&& final(tracker).kernel_pages() == old(tracker).kernel_pages()
            &&& final(tracker).framebuffer_pages() == old(tracker).framebuffer_pages()
        },
{
    let (x, ro, rw) = match section_mapping_lengths(sections) {
        Ok(lengths) => lengths,
        Err(e) => return Err(e),
    };
    let flags = PageTableFlags::present().union(PageTableFlags::writable()).union(
        PageTableFlags::user_accessible(),
    );
    proof {
        crate::paging::lemma_mapping_flags();
    }
    let ghost start = *next_offset;
    let ghost dx = div_ceil(x as int, 4096);
    let ghost dro = div_ceil(ro as int, 4096);
    let ghost drw = div_ceil(rw as int, 4096);
    let px = crate::paging::pages_for_size(x);
    let pro = crate::paging::pages_for_size(ro);
    let prw = crate::paging::pages_for_size(rw);
    let pages = (px as u128) + (pro as u128) + (prw as u128);
    if (*next_offset as u128) + pages * 4096 > u64::MAX as u128 {
        return Err("sections too large for the kernel's mappings");
    }
    let o2 = *next_offset + (px as u64) * 4096;
    let o3 = o2 + (pro as u64) * 4096;
    if (x > 0 && !fits_address_space(*next_offset, px)) || (ro > 0 && !fits_address_space(o2, pro)) || (
    rw > 0 && !fits_address_space(o3, prw)) {
        return Err("sections too large for the kernel's mappings");
    }
    proof {
        assert(x == 0 ==> dx == 0);
        assert(ro == 0 ==> dro == 0);
        assert(rw == 0 ==> drw == 0);
    }
    let ghost all = section_slots(start, x as int, ro as int, rw as int);
    let ghost hyp = hierarchy(kernel.page_table, *allocator, all);
    let ghost b1 = (canonical(start) / 4096) as int;
    let ghost b2 = (canonical((start + dx * 4096) as u64) / 4096) as int;
    let ghost b3 = (canonical((start + (dx + dro) * 4096) as u64) / 4096) as int;
    proof {
        if hyp {
            let part = slots_between(b1, b1 + dx);
            assert(part.subset_of(all));
            let l = choose|levels: Map<u64, int>| crate::paging::leveled(kernel.page_table, *allocator, all, levels);
            crate::paging::lemma_leveled_fewer_slots(kernel.page_table, *allocator, all, part, l);
            assert(hierarchy(kernel.page_table, *allocator, part));
        }
    }
    let executable = if x > 0 {
        match KernelMapping::new(object_name.to_owned().concat(".x"), x, flags, next_offset, kernel, allocator, tracker) {
            Ok(k) => {
                proof {
                    if hyp {
                        assert(slots_between(b1, b1 + dx).subset_of(all));
                    }
                }
                Some(k)
            },
            Err(e) => return Err(mapping_failure(e)),
        }
    } else {
        None
    };
    proof {
        if hyp {
            let part = slots_between(b2, b2 + dro);
            assert(part.subset_of(all));
            let l = choose|levels: Map<u64, int>| crate::paging::leveled(kernel.page_table, *allocator, all, levels);
            crate::paging::lemma_leveled_fewer_slots(kernel.page_table, *allocator, all, part, l);
            assert(hierarchy(kernel.page_table, *allocator, part));
        }
    }
    let read_only = if ro > 0 {
        match KernelMapping::new(object_name.to_owned().concat(".r"), ro, flags, next_offset, kernel, allocator, tracker) {
            Ok(k) => {
                proof {
                    if hyp {
                        assert(slots_between(b2, b2 + dro).subset_of(all));
                    }
                }
                Some(k)
            },
            Err(e) => return Err(mapping_failure(e)),
        }
    } else {
        None
    };
    proof {
        if hyp {
            let part = slots_between(b3, b3 + drw);
            assert(part.subset_of(all));
            let l = choose|levels: Map<u64, int>| crate::paging::leveled(kernel.page_table, *allocator, all, levels);
            crate::paging::lemma_leveled_fewer_slots(kernel.page_table, *allocator, all, part, l);
            assert(hierarchy(kernel.page_table, *allocator, part));
        }
    }
    let read_write = if rw > 0 {
        match KernelMapping::new(object_name.to_owned().concat(".w"), rw, flags, next_offset, kernel, allocator, tracker) {
            Ok(k) => {
                proof {
                    if hyp {
                        assert(slots_between(b3, b3 + drw).subset_of(all));
                    }
                }
                Some(k)
            },
            Err(e) => return Err(mapping_failure(e)),
        }
    } else {
        None
    };
    Ok(SectionMappings { executable, read_only, read_write })
}


/// A symbol of a relocatable ELF object.
#[derive(Clone, Debug)]
pub struct Symbol {
    pub name: String,
    pub binding: u8,
    pub symbol_type: u8,
    pub shndx: u16,
    pub value: u64,
}

/// Whether a symbol makes its section global: a global function, object or thread-local.
pub open spec fn is_global_symbol(sym: Symbol) -> bool {
    sym.binding == STB_GLOBAL && (sym.symbol_type == STT_FUNC || sym.symbol_type == STT_OBJECT
        || sym.symbol_type == STT_TLS)
}

/// The indices of the sections that some global symbol lives in.
pub open spec fn global_sections(symbols: Seq<Symbol>) -> Set<int> {
    Set::new(|i: int| exists|j: int| 0 <= j < symbols.len() && is_global_symbol(#[trigger] symbols[j]) && symbols[j].shndx == i)
}

/// The indices of the sections that some global symbol lives in, each once.
#[verifier::spinoff_prover]
#[verifier::rlimit(30)]
pub fn global_section_indices(symbols: &[Symbol]) -> (r: Vec<usize>)
    ensures
        forall|i: int| #[trigger] global_sections(symbols@).contains(i) <==> exists|k: int|
            0 <= k < r@.len() && r@[k] == i,
        forall|a: int, b: int| 0 <= a < b < r@.len() ==> r@[a] != r@[b],
{
    let mut r: Vec<usize> = Vec::new();
    let mut j: usize = 0;
    while j < symbols.len()
        invariant
            j <= symbols@.len(),
            forall|jj: int|
                0 <= jj < j && is_global_symbol(#[trigger] symbols@[jj]) ==> exists|k: int|
                    0 <= k < r@.len() && r@[k] == symbols@[jj].shndx,
            forall|k: int|
                0 <= k < r@.len() ==> exists|jj: int|
                    0 <= jj < j && is_global_symbol(symbols@[jj]) && symbols@[jj].shndx == #[trigger] r@[k],
            forall|a: int, b: int| 0 <= a < b < r@.len() ==> r@[a] != r@[b],
        decreases symbols@.len() - j,
    {
        let sym = &symbols[j];
        let ghost before = r@;
        if sym.binding == STB_GLOBAL && (sym.symbol_type == STT_FUNC || sym.symbol_type == STT_OBJECT
            || sym.symbol_type == STT_TLS) {
            let index = sym.shndx as usize;
            if !vec_contains(&r, index) {
                r.push(index);
                assert(r@[r@.len() - 1] == symbols@[j as int].shndx);
            }
        }
        assert forall|jj: int|
            0 <= jj < j + 1 && is_global_symbol(#[trigger] symbols@[jj]) implies exists|k: int|
                0 <= k < r@.len() && r@[k] == symbols@[jj].shndx by {
            if jj < j {
                let k = choose|k: int| 0 <= k < before.len() && before[k] == symbols@[jj].shndx;
                assert(r@[k] == before[k]);
            }
        }
        j = j + 1;
    }
    assert forall|i: int| #[trigger] global_sections(symbols@).contains(i) implies exists|k: int|
        0 <= k < r@.len() && r@[k] == i by {
        let jj = choose|jj: int| 0 <= jj < symbols@.len() && is_global_symbol(#[trigger] symbols@[jj])
            && symbols@[jj].shndx == i;
    }
    assert forall|i: int| (exists|k: int| 0 <= k < r@.len() && r@[k] == i) implies #[trigger] global_sections(
        symbols@,
    ).contains(i) by {
        let k = choose|k: int| 0 <= k < r@.len() && r@[k] == i;
        let jj = choose|jj: int| 0 <= jj < symbols@.len() && is_global_symbol(symbols@[jj])
            && symbols@[jj].shndx == #[trigger] r@[k];
        assert(is_global_symbol(symbols@[jj]) && symbols@[jj].shndx == i);
    }
    r
}

/// Whether `v` holds `x`.
fn vec_contains(v: &Vec<usize>, x: usize) -> (r: bool)
    ensures
        r <==> exists|k: int| 0 <= k < v@.len() && v@[k] == x,
{
    let mut k: usize = 0;
    while k < v.len()
        invariant
            k <= v@.len(),
            forall|kk: int| 0 <= kk < k ==> v@[kk] != x,
        decreases v@.len() - k,
    {
        if v[k] == x {
            return true;
        }
        k = k + 1;
    }
    false
}

/// The number of bytes UTF-8 takes for `c`.
pub open spec fn char_utf8_len(c: char) -> int {
    if (c as u32) < 0x80 {
        1
    } else if (c as u32) < 0x800 {
        2
    } else if (c as u32) < 0x10000 {
        3
    } else {
        4
    }
}

/// The number of characters of `s` whose UTF-8 takes exactly `k` bytes, counting on from `j`
/// characters that take `b` bytes; none when no prefix of `s` ends there.
pub open spec fn chars_in_bytes(s: Seq<char>, k: int, j: int, b: int) -> Option<int>
    decreases s.len() - j,
{
    if b == k {
        Some(j)
    } else if b > k || j >= s.len() || j < 0 {
        None
    } else {
        chars_in_bytes(s, k, j + 1, b + char_utf8_len(s[j]))
    }
}

/// What `str::get(k..)` gives: the characters after the first `k` bytes, when a character
/// ends there.
pub open spec fn after_bytes(s: Seq<char>, k: int) -> Option<Seq<char>> {
    match chars_in_bytes(s, k, 0, 0) {
        Some(j) => Some(s.subrange(j, s.len() as int)),
        None => None,
    }
}

/// The number of bytes UTF-8 takes for `c`.
pub(crate) fn utf8_len(c: char) -> (r: usize)
    ensures
        r == char_utf8_len(c),
{
    let v = c as u32;
    if v < 0x80 {
        1
    } else if v < 0x800 {
        2
    } else if v < 0x10000 {
        3
    } else {
        4
    }
}

/// `str::get(k..)`.
fn str_after_bytes(s: &str, k: usize) -> (r: Option<&str>)
    requires
        k <= 64,
    ensures
        r is None <==> after_bytes(s@, k as int) is None,
        r matches Some(t) ==> after_bytes(s@, k as int) == Some(t@),
{
    let n = s.unicode_len();
    let mut j: usize = 0;
    let mut b: usize = 0;
    while j < n && b < k
        invariant
            n == s@.len(),
            j <= n,
            b <= k + 4,
            k <= 64,
            chars_in_bytes(s@, k as int, 0, 0) == chars_in_bytes(s@, k as int, j as int, b as int),
        decreases n - j,
    {
        b = b + utf8_len(s.get_char(j));
        j = j + 1;
    }
    if b == k {
        Some(s.substring_char(j, n))
    } else {
        None
    }
}

/// Whether `a` and `b` hold the same characters.
pub(crate) fn str_eq(a: &str, b: &str) -> (r: bool)
    ensures
        r == (a@ == b@),
{
    let r = a.unicode_len() == b.unicode_len() && str_starts_with(a, b);
    proof {
        if a@.len() == b@.len() && has_prefix(a@, b@) {
            assert(a@ =~= a@.subrange(0, b@.len() as int));
        }
        if a@ == b@ {
            assert(a@.subrange(0, b@.len() as int) =~= b@);
        }
    }
    r
}

/// The names that stand for the empty sections at the head of each kind.
pub open spec fn is_placeholder(name: Seq<char>) -> bool {
    name == ".text"@ || name == ".rodata"@ || name == ".data"@ || name == ".bss"@
}

fn placeholder(name: &str) -> (r: bool)
    ensures
        r == is_placeholder(name@),
{
    str_eq(name, ".text") || str_eq(name, ".rodata") || str_eq(name, ".data") || str_eq(name, ".bss")
}

/// The symbol name in a section name: what follows its first `k` bytes (the kind's prefix).
/// Where no character ends there, a placeholder section is skipped (`Some(None)`) and any
/// other is refused (`None`).
pub open spec fn name_after_prefix(name: Seq<char>, k: int) -> Option<Option<Seq<char>>> {
    match after_bytes(name, k) {
        Some(n) => Some(Some(n)),
        None => if is_placeholder(name) {
            Some(None)
        } else {
            None
        },
    }
}

/// `name` without a leading ".".
pub open spec fn strip_dot(name: Seq<char>) -> Seq<char> {
    if name.len() > 0 && name[0] == '.' {
        name.subrange(1, name.len() as int)
    } else {
        name
    }
}

fn strip_leading_dot(name: &str) -> (r: &str)
    ensures
        r@ == strip_dot(name@),
{
    let n = name.unicode_len();
    if n > 0 && name.get_char(0) == '.' {
        name.substring_char(1, n)
    } else {
        name
    }
}

/// What `rustc_demangle::demangle` writes for a symbol name.
pub uninterp spec fn demangled(name: Seq<char>) -> Seq<char>;

/// `rustc_demangle::demangle`, written out: the demangled symbol, or the name itself when it is
/// not a mangled Rust symbol.
#[verifier::external_body]
fn demangle(name: &str) -> (r: String)
    ensures
        r@ == demangled(name@),
{
    rustc_demangle::demangle(name).to_string()
}


/// Where a mapping of an object lies, and its length in bytes.
#[derive(Clone, Copy, Debug)]
pub struct MappingSlot {
    pub addr: u64,
    pub size: usize,
}

/// The object's mappings that exist.
#[derive(Clone, Copy, Debug)]
pub struct MappingSlots {
    pub executable: Option<MappingSlot>,
    pub read_only: Option<MappingSlot>,
    pub read_write: Option<MappingSlot>,
}

/// Which of an object's mappings a section is in.
#[derive(Clone, Copy, Debug, PartialEq, Eq, Structural)]
pub enum MappingKind {
    Executable,
    ReadOnly,
    ReadWrite,
}

/// A section placed in one of the object's mappings.
#[derive(Clone, Debug)]
pub struct PlacedSection {
    /// The section's index in the object.
    pub index: usize,
    /// The demangled name of the section's symbol.
    pub name: String,
    pub kind: SectionKind,
    /// Whether a global symbol lives in the section.
    pub global: bool,
    pub size: usize,
    pub addr: VirtualAddress,
    pub mapping: MappingKind,
    /// Where in its mapping the section starts.
    pub mapping_offset: usize,
    /// Where in the object the section's bytes start; none for a section that is filled with
    /// zeros, and for code, which is copied whole from the start of the object.
    pub source: Option<usize>,
}

/// The index, name, kind, globality, size, address, mapping, offset in the mapping and
/// source of a placed section.
pub type PlacedView = (int, Seq<char>, SectionKind, bool, int, int, MappingKind, int, Option<int>);

impl View for PlacedSection {
    type V = PlacedView;

    open spec fn view(&self) -> PlacedView {
        (
            self.index as int,
            self.name@,
            self.kind,
            self.global,
            self.size as int,
            self.addr@ as int,
            self.mapping,
            self.mapping_offset as int,
            match self.source {
                Some(o) => Some(o as int),
                None => None,
            },
        )
    }
}

/// The address `offset` bytes into a mapping at `base`, or none when it overflows.
pub open spec fn address_in(base: u64, offset: int) -> Option<int> {
    if base + offset > u64::MAX {
        None
    } else {
        Some(canonical((base + offset) as u64) as int)
    }
}

/// A section of the read-only or read-write mapping, placed at `off`: none when `off` is not
/// inside the mapping, when the section does not fit, when its bytes are not in the object,
/// or when the address or the next offset overflows.
pub open spec fn place_in_slot(
    i: int,
    name: Seq<char>,
    kind: SectionKind,
    global: bool,
    t: SectionHeader,
    m: MappingSlot,
    mapping: MappingKind,
    off: int,
    object_len: int,
) -> Option<(PlacedView, int)> {
    let size = t.size as int;
    let addend = round_up(size, t.align as int);
    let zeroed = t.section_type == SHT_NOBITS;
    if off >= m.size || off + size > m.size || (!zeroed && t.offset + size > object_len) || addend
        > usize::MAX || off + addend > usize::MAX {
        None
    } else {
        match address_in(m.addr, off) {
            None => None,
            Some(addr) => Some(
                (
                    (i, name, kind, global, size, addr, mapping, off, if zeroed {
                        None
                    } else {
                        Some(t.offset as int)
                    }),
                    off + addend,
                ),
            ),
        }
    }
}

/// Where section `i` goes, with the read-only and read-write offsets at `ro` and `rw`:
/// refused (`None`), skipped (`Some(None)`), or placed, with the offsets after it.
pub open spec fn place_section_spec(
    sections: Seq<SectionHeader>,
    i: int,
    globals: Set<int>,
    slots: MappingSlots,
    object_len: int,
    ro: int,
    rw: int,
) -> Option<Option<(PlacedView, int, int)>> {
    let s = sections[i];
    let name = s.name@;
    let write = s.flags & SHF_WRITE == SHF_WRITE;
    let exec = s.flags & SHF_EXECINSTR == SHF_EXECINSTR;
    let tls = s.flags & SHF_TLS == SHF_TLS;
    if s.flags & SHF_ALLOC == 0 {
        Some(None)
    } else {
        match resolved_section(sections, i, false) {
            None => None,
            Some(t) => if exec && !write {
                match slots.executable {
                    None => Some(None),
                    Some(m) => match name_after_prefix(name, 6) {
                        None => None,
                        Some(None) => Some(None),
                        Some(Some(n0)) => {
                            let n1 = strip_dot(n0);
                            let global = globals.contains(i);
                            let n2 = if global && has_prefix(n1, "unlikely."@) {
                                n1.subrange(9, n1.len() as int)
                            } else {
                                n1
                            };
                            match address_in(m.addr, t.offset as int) {
                                None => None,
                                Some(addr) => Some(
                                    Some(
                                        (
                                            (
                                                i,
                                                demangled(n2),
                                                SectionKind::Text,
                                                global,
                                                t.size as int,
                                                addr,
                                                MappingKind::Executable,
                                                t.offset as int,
                                                None,
                                            ),
                                            ro,
                                            rw,
                                        ),
                                    ),
                                ),
                            }
                        },
                    },
                }
            } else if tls {
                match slots.read_only {
                    None => Some(None),
                    Some(m) => match name_after_prefix(
                        name,
                        if t.section_type == SHT_NOBITS {
                            6
                        } else {
                            7
                        },
                    ) {
                        Some(None) => Some(None),
                        _ => None,
                    },
                }
            } else if write {
                match slots.read_write {
                    None => Some(None),
                    Some(m) => {
                        let bss = t.section_type == SHT_NOBITS;
                        match name_after_prefix(
                            name,
                            if bss {
                                5
                            } else {
                                6
                            },
                        ) {
                            None => None,
                            Some(None) => Some(None),
                            Some(Some(n0)) => match place_in_slot(
                                i,
                                demangled(strip_dot(n0)),
                                if bss {
                                    SectionKind::Bss
                                } else {
                                    SectionKind::Data
                                },
                                globals.contains(i),
                                t,
                                m,
                                MappingKind::ReadWrite,
                                rw,
                                object_len,
                            ) {
                                None => None,
                                Some((pv, next)) => Some(Some((pv, ro, next))),
                            },
                        }
                    },
                }
            } else {
                let named = if has_prefix(name, ".rodata"@) {
                    match name_after_prefix(name, 8) {
                        None => None,
                        Some(None) => Some(None),
                        Some(Some(n0)) => Some(Some((demangled(n0), SectionKind::Rodata, globals.contains(i)))),
                    }
                } else if has_prefix(name, ".lrodata"@) {
                    match name_after_prefix(name, 9) {
                        None => None,
                        Some(None) => Some(None),
                        Some(Some(n0)) => Some(Some((demangled(strip_dot(n0)), SectionKind::Rodata, globals.contains(i)))),
                    }
                } else if has_prefix(name, ".gcc_except_table"@) {
                    Some(Some((".gcc_except_table"@, SectionKind::GccExceptTable, false)))
                } else if name == ".eh_frame"@ {
                    Some(Some((".eh_frame"@, SectionKind::EhFrame, false)))
                } else {
                    None
                };
                let read_only_kind = has_prefix(name, ".rodata"@) || has_prefix(name, ".lrodata"@)
                    || has_prefix(name, ".gcc_except_table"@) || name == ".eh_frame"@;
                match slots.read_only {
                    None => if read_only_kind {
                        Some(None)
                    } else {
                        None
                    },
                    Some(m) => match named {
                        None => None,
                        Some(None) => Some(None),
                        Some(Some((n, kind, global))) => match place_in_slot(
                            i,
                            n,
                            kind,
                            global,
                            t,
                            m,
                            MappingKind::ReadOnly,
                            ro,
                            object_len,
                        ) {
                            None => None,
                            Some((pv, next)) => Some(Some((pv, next, rw))),
                        },
                    },
                }
            },
        }
    }
}


/// The symbol name in a section name after its first `k` bytes: `Ok(None)` skips a placeholder
/// section, `Err` refuses any other section without one.
fn symbol_name_after_prefix(name: &str, k: usize) -> (r: Result<Option<&str>, ()>)
    requires
        k <= 64,
    ensures
        match name_after_prefix(name@, k as int) {
            None => r is Err,
            Some(None) => r == Ok::<Option<&str>, ()>(None),
            Some(Some(n)) => r matches Ok(Some(t)) && t@ == n,
        },
{
    match str_after_bytes(name, k) {
        Some(n) => Ok(Some(n)),
        None => if placeholder(name) {
            Ok(None)
        } else {
            Err(())
        },
    }
}

/// The address `offset` bytes into a mapping at `base`.
fn address_at(base: u64, offset: usize) -> (r: Option<VirtualAddress>)
    ensures
        match address_in(base, offset as int) {
            None => r is None,
            Some(a) => r matches Some(v) && v@ == a,
        },
{
    match base.checked_add(offset as u64) {
        Some(a) => Some(VirtualAddress::new(a)),
        None => None,
    }
}

/// [`place_in_slot`], carried out.
fn place_in_mapping(
    i: usize,
    name: String,
    kind: SectionKind,
    global: bool,
    t: &SectionHeader,
    m: MappingSlot,
    mapping: MappingKind,
    off: usize,
    object_len: usize,
) -> (r: Option<(PlacedSection, usize)>)
    requires
        t.align > 0,
    ensures
        match place_in_slot(
            i as int,
            name@,
            kind,
            global,
            *t,
            m,
            mapping,
            off as int,
            object_len as int,
        ) {
            None => r is None,
            Some((pv, next)) => r matches Some((p, n)) && p@ == pv && n == next,
        },
{
    let size = t.size;
    let zeroed = t.section_type == SHT_NOBITS;
    if off >= m.size || size > m.size - off {
        return None;
    }
    if !zeroed && (t.offset > object_len || size > object_len - t.offset) {
        return None;
    }
    let addend = match next_multiple_of(size, t.align) {
        Some(a) => a,
        None => return None,
    };
    let next = match off.checked_add(addend) {
        Some(n) => n,
        None => return None,
    };
    let addr = match address_at(m.addr, off) {
        Some(a) => a,
        None => return None,
    };
    let source = if zeroed {
        None
    } else {
        Some(t.offset)
    };
    Some(
        (
            PlacedSection {
                index: i,
                name,
                kind,
                global,
                size,
                addr,
                mapping,
                mapping_offset: off,
                source,
            },
            next,
        ),
    )
}

/// Whether the ordered indices `globals` hold `i`.
pub open spec fn holds_index(globals: Seq<usize>, i: int) -> bool {
    exists|k: int| 0 <= k < globals.len() && globals[k] == i
}

/// [`place_section_spec`], carried out.
fn place_section(
    sections: &[SectionHeader],
    i: usize,
    globals: &Vec<usize>,
    slots: MappingSlots,
    object_len: usize,
    ro: usize,
    rw: usize,
) -> (r: Result<Option<(PlacedSection, usize, usize)>, &'static str>)
    requires
        i < sections@.len(),
        aligned_sections(sections@),
    ensures
        match place_section_spec(
            sections@,
            i as int,
            Set::new(|x: int| holds_index(globals@, x)),
            slots,
            object_len as int,
            ro as int,
            rw as int,
        ) {
            None => r is Err,
            Some(None) => r matches Ok(None),
            Some(Some((pv, ro2, rw2))) => r matches Ok(Some((p, a, b))) && p@ == pv && a == ro2 && b
                == rw2,
        },
{
    let ghost gset = Set::new(|x: int| holds_index(globals@, x));
    let s = &sections[i];
    let name = s.name.as_str();
    if s.flags & SHF_ALLOC == 0 {
        return Ok(None);
    }
    let t = if s.size == 0 {
        if i + 1 < sections.len() {
            if sections[i + 1].offset == s.offset {
                &sections[i + 1]
            } else {
                s
            }
        } else {
            return Err("couldn't get the section following a zero-sized section");
        }
    } else {
        s
    };
    let write = s.flags & SHF_WRITE == SHF_WRITE;
    let exec = s.flags & SHF_EXECINSTR == SHF_EXECINSTR;
    let tls = s.flags & SHF_TLS == SHF_TLS;
    if exec && !write {
        let m = match slots.executable {
            Some(m) => m,
            None => return Ok(None),
        };
        let n0 = match symbol_name_after_prefix(name, 6) {
            Ok(Some(n)) => n,
            Ok(None) => return Ok(None),
            Err(_) => return Err("failed to get the .text. section's name after '.text.'"),
        };
        let n1 = strip_leading_dot(n0);
        let global = vec_contains(globals, i);
        proof {
            assert(global == gset.contains(i as int));
            reveal_strlit("unlikely.");
        }
        let n2 = if global && str_starts_with(n1, "unlikely.") {
            n1.substring_char(9, n1.unicode_len())
        } else {
            n1
        };
        let addr = match address_at(m.addr, t.offset) {
            Some(a) => a,
            None => return Err("section address overflows"),
        };
        let placed = PlacedSection {
            index: i,
            name: demangle(n2),
            kind: SectionKind::Text,
            global,
            size: t.size,
            addr,
            mapping: MappingKind::Executable,
            mapping_offset: t.offset,
            source: None,
        };
        return Ok(Some((placed, ro, rw)));
    }
    if tls {
        if slots.read_only.is_none() {
            return Ok(None);
        }
        let k: usize = if t.section_type == SHT_NOBITS {
            6
        } else {
            7
        };
        return match symbol_name_after_prefix(name, k) {
            Ok(None) => Ok(None),
            Ok(Some(_)) => Err("thread-local sections are not supported"),
            Err(_) => Err(if k == 6 {
                "failed to get the .tbss. section's name after '.tbss.'"
            } else {
                "failed to get the .tdata. section's name after '.tdata.'"
            }),
        };
    }
    if write {
        let m = match slots.read_write {
            Some(m) => m,
            None => return Ok(None),
        };
        let bss = t.section_type == SHT_NOBITS;
        let k: usize = if bss {
            5
        } else {
            6
        };
        let n0 = match symbol_name_after_prefix(name, k) {
            Ok(Some(n)) => n,
            Ok(None) => return Ok(None),
            Err(_) => return Err(if bss {
                "failed to get the .bss. section's name after '.bss.'"
            } else {
                "failed to get the .data. section's name after '.data.'"
            }),
        };
        let kind = if bss {
            SectionKind::Bss
        } else {
            SectionKind::Data
        };
        let global = vec_contains(globals, i);
        proof {
            assert(global == gset.contains(i as int));
        }
        return match place_in_mapping(
            i,
            demangle(strip_leading_dot(n0)),
            kind,
            global,
            t,
            m,
            MappingKind::ReadWrite,
            rw,
            object_len,
        ) {
            Some((p, next)) => Ok(Some((p, ro, next))),
            None => Err("couldn't place a .data or .bss section"),
        };
    }
    proof {
        reveal_strlit(".gcc_except_table");
        reveal_strlit(".eh_frame");
    }
    let rodata = str_starts_with(name, ".rodata");
    let lrodata = !rodata && str_starts_with(name, ".lrodata");
    let except_table = !rodata && !lrodata && str_starts_with(name, ".gcc_except_table");
    let eh_frame = !rodata && !lrodata && !except_table && str_eq(name, ".eh_frame");
    if !(rodata || lrodata || except_table || eh_frame) {
        return Err("encountered unhandled section");
    }
    let m = match slots.read_only {
        Some(m) => m,
        None => return Ok(None),
    };
    let global = vec_contains(globals, i);
    proof {
        assert(global == gset.contains(i as int));
    }
    let (n, kind, global) = if rodata {
        match symbol_name_after_prefix(name, 8) {
            Ok(Some(n0)) => (demangle(n0), SectionKind::Rodata, global),
            Ok(None) => return Ok(None),
            Err(_) => return Err("failed to get the .rodata. section's name after '.rodata.'"),
        }
    } else if lrodata {
        match symbol_name_after_prefix(name, 9) {
            Ok(Some(n0)) => (demangle(strip_leading_dot(n0)), SectionKind::Rodata, global),
            Ok(None) => return Ok(None),
            Err(_) => return Err("failed to get the .lrodata. section's name after '.lrodata.'"),
        }
    } else if except_table {
        (String::from_str(SectionKind::GccExceptTable.name()), SectionKind::GccExceptTable, false)
    } else {
        (String::from_str(SectionKind::EhFrame.name()), SectionKind::EhFrame, false)
    };
    match place_in_mapping(i, n, kind, global, t, m, MappingKind::ReadOnly, ro, object_len) {
        Some((p, next)) => Ok(Some((p, next, rw))),
        None => Err("couldn't place a read-only section"),
    }
}


/// The first `n` sections placed in order, with the read-only and read-write offsets after
/// them; none when one of them is refused.
pub open spec fn layout_upto(
    sections: Seq<SectionHeader>,
    globals: Set<int>,
    slots: MappingSlots,
    object_len: int,
    n: int,
) -> Option<(Seq<PlacedView>, int, int)>
    decreases n,
{
    if n <= 0 {
        Some((Seq::empty(), 0, 0))
    } else {
        match layout_upto(sections, globals, slots, object_len, n - 1) {
            None => None,
            Some((placed, ro, rw)) => match place_section_spec(
                sections,
                n - 1,
                globals,
                slots,
                object_len,
                ro,
                rw,
            ) {
                None => None,
                Some(None) => Some((placed, ro, rw)),
                Some(Some((pv, ro2, rw2))) => Some((placed.push(pv), ro2, rw2)),
            },
        }
    }
}

proof fn lemma_layout_fail(
    sections: Seq<SectionHeader>,
    globals: Set<int>,
    slots: MappingSlots,
    object_len: int,
    k: int,
    m: int,
)
    requires
        0 <= k <= m,
        layout_upto(sections, globals, slots, object_len, k) is None,
    ensures
        layout_upto(sections, globals, slots, object_len, m) is None,
    decreases m - k,
{
    if m > k {
        lemma_layout_fail(sections, globals, slots, object_len, k, m - 1);
    }
}

/// Where an object's sections go: the length of code copied whole from the start of the object
/// into the executable mapping, the placed sections, and the sections global symbols live in.
pub struct ObjectLayout {
    pub text_size: usize,
    pub sections: Vec<PlacedSection>,
    pub global_sections: Vec<usize>,
}

/// The layout of an object of `object_len` bytes with `sections` and `symbols`, in the
/// mappings `slots`: none when the code is longer than the object, or a section is refused.
pub open spec fn object_layout(
    sections: Seq<SectionHeader>,
    symbols: Seq<Symbol>,
    slots: MappingSlots,
    object_len: int,
) -> Option<Seq<PlacedView>> {
    if slots.executable matches Some(m) && m.size > object_len {
        None
    } else {
        match layout_upto(sections, global_sections(symbols), slots, object_len, sections.len() as int) {
            None => None,
            Some((placed, _, _)) => Some(placed),
        }
    }
}

/// A size rounded up to a nonzero alignment is at least the size.
proof fn lemma_round_up_covers(value: int, align: int)
    requires
        0 <= value,
        0 < align,
    ensures
        round_up(value, align) >= value,
{
    vstd::arithmetic::div_mod::lemma_mod_bound(value, align);
}

/// The section that stands for a section that takes memory has a nonzero alignment.
proof fn lemma_resolved_aligned(sections: Seq<SectionHeader>, i: int)
    requires
        aligned_sections(sections),
        0 <= i < sections.len(),
        sections[i].flags & SHF_ALLOC != 0,
    ensures
        resolved_section(sections, i, false) matches Some(t) ==> t.align > 0,
{
    assert(sections[i].flags & SHF_ALLOC != 0);
}

/// Placing one section: a read-only section starts at the read-only offset, which then moves
/// past it; a read-write section likewise with the read-write offset; code leaves both.
proof fn lemma_place_advances(
    sections: Seq<SectionHeader>,
    i: int,
    globals: Set<int>,
    slots: MappingSlots,
    object_len: int,
    ro: int,
    rw: int,
)
    requires
        aligned_sections(sections),
        0 <= i < sections.len(),
    ensures
        place_section_spec(sections, i, globals, slots, object_len, ro, rw) matches Some(
            Some((pv, ro2, rw2)),
        ) ==> {
            &&& pv.4 >= 0
            &&& pv.6 == MappingKind::ReadOnly ==> pv.7 == ro && ro + pv.4 <= ro2 && rw2 == rw
            &&& pv.6 == MappingKind::ReadWrite ==> pv.7 == rw && rw + pv.4 <= rw2 && ro2 == ro
            &&& pv.6 == MappingKind::Executable ==> ro2 == ro && rw2 == rw
        },
{
    if sections[i].flags & SHF_ALLOC != 0 {
        lemma_resolved_aligned(sections, i);
        if let Some(t) = resolved_section(sections, i, false) {
            lemma_round_up_covers(t.size as int, t.align as int);
        }
    }
}

/// Laying out the first `n` sections: every read-only section placed ends at or before the
/// read-only offset, every read-write one at or before the read-write offset, and no two
/// sections of one of these mappings overlap.
proof fn lemma_layout_disjoint(
    sections: Seq<SectionHeader>,
    globals: Set<int>,
    slots: MappingSlots,
    object_len: int,
    n: int,
)
    requires
        aligned_sections(sections),
        n <= sections.len(),
    ensures
        layout_upto(sections, globals, slots, object_len, n) matches Some((placed, ro, rw)) ==> {
            &&& forall|k: int|
                0 <= k < placed.len() && (#[trigger] placed[k]).6 == MappingKind::ReadOnly
                    ==> placed[k].7 + placed[k].4 <= ro
            &&& forall|k: int|
                0 <= k < placed.len() && (#[trigger] placed[k]).6 == MappingKind::ReadWrite
                    ==> placed[k].7 + placed[k].4 <= rw
            &&& forall|a: int, b: int|
                0 <= a < b < placed.len() && (#[trigger] placed[a]).6 == (#[trigger] placed[b]).6
                    && placed[a].6 != MappingKind::Executable ==> placed[a].7 + placed[a].4
                    <= placed[b].7
        },
    decreases n,
{
    if n > 0 {
        lemma_layout_disjoint(sections, globals, slots, object_len, n - 1);
        if let Some((placed, ro, rw)) = layout_upto(sections, globals, slots, object_len, n - 1) {
            lemma_place_advances(sections, n - 1, globals, slots, object_len, ro, rw);
            if let Some(Some((pv, ro2, rw2))) = place_section_spec(
                sections,
                n - 1,
                globals,
                slots,
                object_len,
                ro,
                rw,
            ) {
                let next = placed.push(pv);
                assert forall|k: int|
                    0 <= k < next.len() && (#[trigger] next[k]).6 == MappingKind::ReadOnly
                        implies next[k].7 + next[k].4 <= ro2 by {
                    if k < placed.len() {
                        assert(next[k] == placed[k]);
                    }
                }
                assert forall|k: int|
                    0 <= k < next.len() && (#[trigger] next[k]).6 == MappingKind::ReadWrite
                        implies next[k].7 + next[k].4 <= rw2 by {
                    if k < placed.len() {
                        assert(next[k] == placed[k]);
                    }
                }
                assert forall|a: int, b: int|
                    0 <= a < b < next.len() && (#[trigger] next[a]).6 == (#[trigger] next[b]).6
                        && next[a].6 != MappingKind::Executable implies next[a].7 + next[a].4
                        <= next[b].7 by {
                    assert(next[a] == placed[a]);
                    if b < placed.len() {
                        assert(next[b] == placed[b]);
                    }
                }
            }
        }
    }
}

/// Sections placed in one mapping do not overlap: of two sections that the layout places in the
/// read-only mapping, or two in the read-write one, the one placed first ends, at its offset in
/// the mapping plus its size, at or before the offset where the other starts. Each such
/// section moves its mapping's offset past itself, rounded up to its alignment.
pub proof fn law_placed_sections_disjoint(
    sections: Seq<SectionHeader>,
    symbols: Seq<Symbol>,
    slots: MappingSlots,
    object_len: int,
)
    requires
        aligned_sections(sections),
    ensures
        object_layout(sections, symbols, slots, object_len) matches Some(placed) ==> forall|
            a: int,
            b: int,
        |
            0 <= a < b < placed.len() && (#[trigger] placed[a]).6 == (#[trigger] placed[b]).6
                && placed[a].6 != MappingKind::Executable ==> placed[a].7 + placed[a].4
                <= placed[b].7,
{
    lemma_layout_disjoint(sections, global_sections(symbols), slots, object_len, sections.len() as int);
}

/// Lays out the sections of a relocatable object of `object_len` bytes in its mappings `slots`:
/// code is copied whole from the start of the object and each text section keeps its offset;
/// writable data, then read-only data, go one after the other in their mappings, each rounded
/// up to its alignment. Each section is named by the demangled symbol after its kind's prefix.
pub fn load_object_sections(
    sections: &[SectionHeader],
    symbols: &[Symbol],
    slots: MappingSlots,
    object_len: usize,
) -> (r: Result<ObjectLayout, &'static str>)
    requires
        aligned_sections(sections@),
    ensures
        r is Ok <==> object_layout(sections@, symbols@, slots, object_len as int) is Some,
        r matches Ok(layout) ==> {
            &&& layout.sections@.map_values(|p: PlacedSection| p@) == object_layout(
                sections@,
                symbols@,
                slots,
                object_len as int,
            )->0
            &&& layout.text_size == match slots.executable {
                Some(m) => m.size,
                None => 0,
            }
            &&& forall|i: int| #[trigger] global_sections(symbols@).contains(i) <==> holds_index(
                layout.global_sections@,
                i,
            )
        },
{
    let text_size = match slots.executable {
        Some(m) => {
            if m.size > object_len {
                return Err("end of last `.text` section was miscalculated to be beyond ELF file bounds");
            }
            m.size
        },
        None => 0,
    };
    let globals = global_section_indices(symbols);
    let ghost gset = Set::new(|x: int| holds_index(globals@, x));
    proof {
        assert(gset =~= global_sections(symbols@));
    }
    let mut placed: Vec<PlacedSection> = Vec::new();
    let mut ro: usize = 0;
    let mut rw: usize = 0;
    let mut i: usize = 0;
    while i < sections.len()
        invariant
            i <= sections@.len(),
            aligned_sections(sections@),
            gset == global_sections(symbols@),
            gset == Set::new(|x: int| holds_index(globals@, x)),
            layout_upto(sections@, gset, slots, object_len as int, i as int) == Some(
                (placed@.map_values(|p: PlacedSection| p@), ro as int, rw as int),
            ),
        decreases sections@.len() - i,
    {
        match place_section(sections, i, &globals, slots, object_len, ro, rw) {
            Err(e) => {
                proof {
                    lemma_layout_fail(sections@, gset, slots, object_len as int, i + 1, sections@.len() as int);
                }
                return Err(e);
            },
            Ok(None) => {},
            Ok(Some((p, ro2, rw2))) => {
                let ghost before = placed@;
                placed.push(p);
                ro = ro2;
                rw = rw2;
                proof {
                    assert(placed@.map_values(|p: PlacedSection| p@) =~= before.map_values(
                        |p: PlacedSection| p@,
                    ).push(p@));
                }
            },
        }
        i = i + 1;
    }
    Ok(ObjectLayout { text_size, sections: placed, global_sections: globals })
}


/// The relocation writes the 64-bit absolute address.
pub const R_X86_64_64: u32 = 1;
/// The relocation writes the 32-bit address relative to the place written.
pub const R_X86_64_PC32: u32 = 2;
/// The relocation writes the 32-bit address of a procedure, relative to the place written.
pub const R_X86_64_PLT32: u32 = 4;
/// The relocation writes the 32-bit absolute address.
pub const R_X86_64_32: u32 = 10;
/// The relocation writes the 32-bit absolute address, sign-extended when read.
pub const R_X86_64_32S: u32 = 11;
/// The relocation writes the 64-bit address relative to the place written.
pub const R_X86_64_PC64: u32 = 24;

/// A relocation entry with an addend.
#[derive(Clone, Copy, Debug)]
pub struct Rela {
    /// Where in the target section to write.
    pub offset: u64,
    /// The index of the symbol whose address is written.
    pub symbol_index: u32,
    pub relocation_type: u32,
    pub addend: u64,
}

/// The width in bytes and the value a relocation of type `kind` writes at the address `place`,
/// for a symbol at `source` and the addend `addend`; none for a type that is not handled.
pub open spec fn relocation_value(kind: u32, source: u64, addend: u64, place: u64) -> Option<
    (int, int),
> {
    let absolute = (source + addend) % 0x1_0000_0000_0000_0000;
    let relative = (source + addend - place) % 0x1_0000_0000_0000_0000;
    if kind == R_X86_64_32 || kind == R_X86_64_32S {
        Some((4, absolute % 0x1_0000_0000))
    } else if kind == R_X86_64_PC32 || kind == R_X86_64_PLT32 {
        Some((4, relative % 0x1_0000_0000))
    } else if kind == R_X86_64_64 {
        Some((8, absolute))
    } else if kind == R_X86_64_PC64 {
        Some((8, relative))
    } else {
        None
    }
}

/// Adding the place back to a value taken relative to it gives the absolute address, modulo `m`.
proof fn lemma_relative_mod(x: int, place: int, m: int)
    requires
        0 < m,
    ensures
        (place + (x - place) % m) % m == x % m,
{
    vstd::arithmetic::div_mod::lemma_add_mod_noop(place, (x - place) % m, m);
    vstd::arithmetic::div_mod::lemma_add_mod_noop(place, x - place, m);
    vstd::arithmetic::div_mod::lemma_mod_twice(x - place, m);
}

/// What each relocation type writes, in plain arithmetic on the symbol's address `s`, the
/// addend `a` and the place `p` written to: `R_X86_64_32` and `R_X86_64_32S` write the 32-bit
/// value `(s + a) mod 2^32`; `R_X86_64_PC32` and `R_X86_64_PLT32` alike write the 32-bit value
/// `(s + a - p) mod 2^32`, relative to the place, so that the place plus the value is `s + a`
/// modulo 2^32; `R_X86_64_64` writes the 64-bit value `(s + a) mod 2^64` and `R_X86_64_PC64`
/// the 64-bit value `(s + a - p) mod 2^64`; every other type is refused.
pub proof fn law_relocation_values(kind: u32, s: u64, a: u64, p: u64)
    ensures
        relocation_value(R_X86_64_PLT32, s, a, p) == relocation_value(R_X86_64_PC32, s, a, p),
        relocation_value(R_X86_64_PC32, s, a, p) == Some((4int, (s + a - p) % 0x1_0000_0000)),
        relocation_value(R_X86_64_PLT32, s, a, p) == Some((4int, (s + a - p) % 0x1_0000_0000)),
        (p + (s + a - p) % 0x1_0000_0000) % 0x1_0000_0000 == (s + a) % 0x1_0000_0000,
        relocation_value(R_X86_64_32, s, a, p) == Some((4int, (s + a) % 0x1_0000_0000)),
        relocation_value(R_X86_64_32S, s, a, p) == Some((4int, (s + a) % 0x1_0000_0000)),
        relocation_value(R_X86_64_64, s, a, p) == Some((8int, (s + a) % 0x1_0000_0000_0000_0000)),
        relocation_value(R_X86_64_PC64, s, a, p) == Some(
            (8int, (s + a - p) % 0x1_0000_0000_0000_0000),
        ),
        (p + (s + a - p) % 0x1_0000_0000_0000_0000) % 0x1_0000_0000_0000_0000 == (s + a)
            % 0x1_0000_0000_0000_0000,
        kind != R_X86_64_32 && kind != R_X86_64_32S && kind != R_X86_64_PC32 && kind
            != R_X86_64_PLT32 && kind != R_X86_64_64 && kind != R_X86_64_PC64 ==> relocation_value(
            kind,
            s,
            a,
            p,
        ) is None,
{
    vstd::arithmetic::div_mod::lemma_mod_mod(s + a - p, 0x1_0000_0000, 0x1_0000_0000);
    vstd::arithmetic::div_mod::lemma_mod_mod(s + a, 0x1_0000_0000, 0x1_0000_0000);
    assert(0x1_0000_0000int * 0x1_0000_0000int == 0x1_0000_0000_0000_0000int);
    lemma_relative_mod(s + a, p as int, 0x1_0000_0000);
    lemma_relative_mod(s + a, p as int, 0x1_0000_0000_0000_0000);
}

/// The `width` little-endian bytes of `value`: the native order of x86-64.
pub open spec fn le_bytes(value: int, width: int) -> Seq<u8> {
    Seq::new(width as nat, |k: int| ((value / pow256(k)) % 256) as u8)
}

/// 256 to the power `k`.
pub open spec fn pow256(k: int) -> int
    decreases k,
{
    if k <= 0 {
        1
    } else {
        256 * pow256(k - 1)
    }
}

/// Writes the relocation `kind` into `target` at `target_offset`, which is the address
/// `place`: the symbol's address `source` plus `addend`, less `place` for the relative types,
/// cut to the width of the type and written little-endian.
pub fn write_relocation(
    kind: u32,
    addend: u64,
    target: &mut Vec<u8>,
    target_offset: usize,
    place: u64,
    source: u64,
) -> (r: Result<(), &'static str>)
    ensures
        relocation_value(kind, source, addend, place) is None ==> r is Err && final(target)@ == old(
            target,
        )@,
        relocation_value(kind, source, addend, place) matches Some((width, value)) ==> {
            if target_offset + width <= old(target)@.len() {
                &&& r is Ok
                &&& final(target)@ == old(target)@.subrange(0, target_offset as int) + le_bytes(
                    value,
                    width,
                ) + old(target)@.subrange(target_offset + width, old(target)@.len() as int)
            } else {
                r is Err && final(target)@ == old(target)@
            }
        },
{
    let absolute = source.wrapping_add(addend);
    let relative = absolute.wrapping_sub(place);
    let (width, value): (usize, u64) = if kind == R_X86_64_32 || kind == R_X86_64_32S {
        (4, absolute % 0x1_0000_0000)
    } else if kind == R_X86_64_PC32 || kind == R_X86_64_PLT32 {
        (4, relative % 0x1_0000_0000)
    } else if kind == R_X86_64_64 {
        (8, absolute)
    } else if kind == R_X86_64_PC64 {
        (8, relative)
    } else {
        return Err("unsupported relocation type");
    };
    proof {
        assert(absolute == (source + addend) % 0x1_0000_0000_0000_0000);
        assert(relative == (source + addend - place) % 0x1_0000_0000_0000_0000) by (nonlinear_arith)
            requires
                absolute == (source + addend) % 0x1_0000_0000_0000_0000,
                relative == if absolute >= place {
                    absolute - place
                } else {
                    absolute - place + 0x1_0000_0000_0000_0000
                },
        ;
    }
    if target_offset > target.len() || width > target.len() - target_offset {
        return Err("relocation target out of range");
    }
    let ghost old_target = target@;
    let mut k: usize = 0;
    let mut rest: u64 = value;
    while k < width
        invariant
            k <= width <= 8,
            target_offset + width <= target@.len(),
            target_offset + width <= usize::MAX,
            target@.len() == old_target.len(),
            rest as int == value as int / pow256(k as int),
            forall|j: int| 0 <= j < target_offset ==> target@[j] == old_target[j],
            forall|j: int| target_offset + width <= j < target@.len() ==> target@[j] == old_target[j],
            forall|j: int| 0 <= j < k ==> target@[target_offset + j] == ((value as int / pow256(j)) % 256) as u8,
        decreases width - k,
    {
        proof {
            assert(pow256(k + 1) == 256 * pow256(k as int));
            assert(pow256(k as int) > 0) by {
                lemma_pow256_positive(k as int);
            }
            assert(value as int / pow256(k + 1) == (value as int / pow256(k as int)) / 256) by {
                vstd::arithmetic::div_mod::lemma_div_denominator(value as int, pow256(k as int), 256);
            }
        }
        target.set(target_offset + k, (rest % 256) as u8);
        rest = rest / 256;
        k = k + 1;
    }
    proof {
        assert(target@ =~= old_target.subrange(0, target_offset as int) + le_bytes(value as int, width as int)
            + old_target.subrange(target_offset + width, old_target.len() as int));
    }
    Ok(())
}

proof fn lemma_pow256_positive(k: int)
    ensures
        pow256(k) > 0,
    decreases k,
{
    if k > 0 {
        lemma_pow256_positive(k - 1);
    }
}


/// Where the symbol of a relocation lies.
#[derive(Clone, Debug)]
pub enum RelocationSource {
    /// In a section of the object itself; the address of the symbol.
    Local(VirtualAddress),
    /// In a section of another object, which is found by the demangled `name`; the symbol lies
    /// `value` bytes into it.
    External { name: String, value: u64 },
}

/// The name by which a symbol's section is found in other objects: the symbol's name without
/// a leading ".data.rel.ro.", demangled.
pub open spec fn external_section_name(symbol_name: Seq<char>) -> Seq<char> {
    if has_prefix(symbol_name, ".data.rel.ro."@) {
        demangled(symbol_name.subrange(13, symbol_name.len() as int))
    } else {
        demangled(symbol_name)
    }
}

/// The first of `placed` that is section `index`, if any.
pub open spec fn first_placed(placed: Seq<PlacedSection>, index: int) -> Option<int> {
    if exists|k: int| 0 <= k < placed.len() && placed[k].index == index {
        Some(choose|k: int| 0 <= k < placed.len() && placed[k].index == index && forall|j: int|
            0 <= j < k ==> placed[j].index != index)
    } else {
        None
    }
}

/// Where the symbol of `rela` lies: in the object's own placed section when the symbol's section
/// was placed, at the section's address plus the symbol's value; otherwise in another object's
/// section, looked up by name.
pub fn relocation_source(rela: &Rela, symbols: &[Symbol], placed: &[PlacedSection]) -> (r: Result<
    RelocationSource,
    &'static str,
>)
    ensures
        rela.symbol_index >= symbols@.len() ==> r is Err,
        rela.symbol_index < symbols@.len() ==> ({
            let sym = symbols@[rela.symbol_index as int];
            match first_placed(placed@, sym.shndx as int) {
                Some(k) => match address_in(placed@[k].addr@, sym.value as int) {
                    Some(a) => r matches Ok(RelocationSource::Local(addr)) && addr@ == a,
                    None => r is Err,
                },
                None => r matches Ok(RelocationSource::External { name, value }) && name@
                    == external_section_name(sym.name@) && value == sym.value,
            }
        }),
{
    let index = rela.symbol_index as usize;
    if index >= symbols.len() {
        return Err("relocation names a symbol that does not exist");
    }
    let sym = &symbols[index];
    let shndx = sym.shndx as usize;
    let mut k: usize = 0;
    while k < placed.len()
        invariant
            k <= placed@.len(),
            index == rela.symbol_index,
            index < symbols@.len(),
            *sym == symbols@[index as int],
            shndx == sym.shndx,
            forall|j: int| 0 <= j < k ==> placed@[j].index != shndx,
        decreases placed@.len() - k,
    {
        if placed[k].index == shndx {
            proof {
                let f = first_placed(placed@, shndx as int);
                assert(f is Some);
                let c = f->0;
                if c < k {
                    assert(placed@[c].index != shndx);
                }
                if c > k {
                    assert(placed@[k as int].index != shndx);
                }
            }
            let base = placed[k].addr.to_raw();
            if sym.value > u64::MAX - base {
                return Err("relocation source address overflows");
            }
            return Ok(RelocationSource::Local(VirtualAddress::new(base + sym.value)));
        }
        k = k + 1;
    }
    let name = sym.name.as_str();
    proof {
        reveal_strlit(".data.rel.ro.");
    }
    let stripped = if str_starts_with(name, ".data.rel.ro.") {
        name.substring_char(13, name.unicode_len())
    } else {
        name
    };
    Ok(RelocationSource::External { name: demangle(stripped), value: sym.value })
}


/// The bytes of a section's mapping, up to the section's end, at address `base`, after the
/// first `n` relocations of `relas` were written with the symbol addresses `sources`; none when
/// a relocation has an unhandled type or falls outside the bytes.
pub open spec fn relocated(
    bytes: Seq<u8>,
    base: u64,
    mapping_offset: int,
    relas: Seq<Rela>,
    sources: Seq<u64>,
    n: int,
) -> Option<Seq<u8>>
    decreases n,
{
    if n <= 0 {
        Some(bytes)
    } else {
        match relocated(bytes, base, mapping_offset, relas, sources, n - 1) {
            None => None,
            Some(b) => {
                let rela = relas[n - 1];
                let off = mapping_offset + rela.offset;
                if off > usize::MAX || base + off > u64::MAX {
                    None
                } else {
                    match relocation_value(
                        rela.relocation_type,
                        sources[n - 1],
                        rela.addend,
                        (base + off) as u64,
                    ) {
                        None => None,
                        Some((width, value)) => if off + width <= b.len() {
                            Some(
                                b.subrange(0, off) + le_bytes(value, width) + b.subrange(
                                    off + width,
                                    b.len() as int,
                                ),
                            )
                        } else {
                            None
                        },
                    }
                }
            },
        }
    }
}

proof fn lemma_relocated_fail(
    bytes: Seq<u8>,
    base: u64,
    mapping_offset: int,
    relas: Seq<Rela>,
    sources: Seq<u64>,
    k: int,
    m: int,
)
    requires
        0 <= k <= m,
        relocated(bytes, base, mapping_offset, relas, sources, k) is None,
    ensures
        relocated(bytes, base, mapping_offset, relas, sources, m) is None,
    decreases m - k,
{
    if m > k {
        lemma_relocated_fail(bytes, base, mapping_offset, relas, sources, k, m - 1);
    }
}

/// Writes the relocations `relas` of a section placed at `mapping_offset` into the bytes of its
/// mapping up to the section's end, `target`, whose first byte is at address `base`; the
/// symbol of the `j`-th relocation is at `sources[j]`.
pub fn apply_relocations(
    target: &mut Vec<u8>,
    base: u64,
    mapping_offset: usize,
    relas: &[Rela],
    sources: &[u64],
) -> (r: Result<(), &'static str>)
    requires
        sources@.len() == relas@.len(),
    ensures
        r is Ok <==> relocated(
            old(target)@,
            base,
            mapping_offset as int,
            relas@,
            sources@,
            relas@.len() as int,
        ) is Some,
        r is Ok ==> Some(final(target)@) == relocated(
            old(target)@,
            base,
            mapping_offset as int,
            relas@,
            sources@,
            relas@.len() as int,
        ),
{
    let mut j: usize = 0;
    while j < relas.len()
        invariant
            j <= relas@.len(),
            sources@.len() == relas@.len(),
            relocated(old(target)@, base, mapping_offset as int, relas@, sources@, j as int)
                == Some(target@),
        decreases relas@.len() - j,
    {
        let rela = relas[j];
        let off = match mapping_offset.checked_add(rela.offset as usize) {
            Some(o) => o,
            None => {
                proof {
                    lemma_relocated_fail(old(target)@, base, mapping_offset as int, relas@, sources@, j + 1, relas@.len() as int);
                }
                return Err("relocation offset overflows");
            },
        };
        if rela.offset > usize::MAX as u64 || off as u64 > u64::MAX - base {
            proof {
                lemma_relocated_fail(old(target)@, base, mapping_offset as int, relas@, sources@, j + 1, relas@.len() as int);
            }
            return Err("relocation offset overflows");
        }
        match write_relocation(rela.relocation_type, rela.addend, target, off, base + off as u64, sources[j]) {
            Ok(()) => {},
            Err(e) => {
                proof {
                    lemma_relocated_fail(old(target)@, base, mapping_offset as int, relas@, sources@, j + 1, relas@.len() as int);
                }
                return Err(e);
            },
        }
        j = j + 1;
    }
    Ok(())
}


/// What `char::is_alphanumeric` says of `c`: whether it is alphabetic or numeric in Unicode.
pub uninterp spec fn char_is_alphanumeric(c: char) -> bool;

/// `char::is_alphanumeric`; on ASCII, exactly the letters and digits.
#[verifier::external_body]
fn is_alphanumeric(c: char) -> (r: bool)
    ensures
        r == char_is_alphanumeric(c),
        (c as u32) < 0x80 ==> (r <==> (('a' <= c && c <= 'z') || ('A' <= c && c <= 'Z') || ('0' <= c
            && c <= '9'))),
{
    c.is_alphanumeric()
}

/// Whether `c` may be part of a crate name: an alphanumeric character or `_`; among ASCII
/// characters, exactly the letters, the digits and `_`.
pub open spec fn is_name_char(c: char) -> bool {
    if (c as u32) < 0x80 {
        ('a' <= c && c <= 'z') || ('A' <= c && c <= 'Z') || ('0' <= c && c <= '9') || c == '_'
    } else {
        char_is_alphanumeric(c)
    }
}

/// Where a crate name found in a symbol starts: at a character, or one byte into a character
/// (where a `str` cannot be cut).
#[derive(Clone, Copy, Debug, PartialEq, Eq, Structural)]
pub enum NameStart {
    At(usize),
    IntoChar(usize),
}

/// The first place at or after `start` where `pat` occurs in `s`.
pub open spec fn find_from(s: Seq<char>, pat: Seq<char>, start: int) -> Option<int>
    decreases s.len() + 1 - start,
{
    if start < 0 || start + pat.len() > s.len() {
        None
    } else if s.subrange(start, start + pat.len()) == pat {
        Some(start)
    } else {
        find_from(s, pat, start + 1)
    }
}

pub proof fn lemma_find_from(s: Seq<char>, pat: Seq<char>, start: int)
    ensures
        find_from(s, pat, start) matches Some(j) ==> start <= j && j + pat.len() <= s.len()
            && s.subrange(j, j + pat.len()) == pat,
    decreases s.len() + 1 - start,
{
    if !(start < 0 || start + pat.len() > s.len()) && s.subrange(start, start + pat.len()) != pat {
        lemma_find_from(s, pat, start + 1);
    }
}

/// The last character in `s[lo..hi]` that may not be part of a crate name.
pub open spec fn last_non_name(s: Seq<char>, lo: int, hi: int) -> Option<int>
    decreases hi - lo,
{
    if hi <= lo {
        None
    } else if !is_name_char(s[hi - 1]) {
        Some(hi - 1)
    } else {
        last_non_name(s, lo, hi - 1)
    }
}

/// Where the crate name that ends at `hi` starts, looking back no further than `lo`: one byte
/// after the last character that may not be part of a name, or `lo`.
pub open spec fn name_start(s: Seq<char>, lo: int, hi: int) -> NameStart {
    match last_non_name(s, lo, hi) {
        Some(j) => if (s[j] as u32) < 0x80 {
            NameStart::At((j + 1) as usize)
        } else {
            NameStart::IntoChar(j as usize)
        },
        None => NameStart::At(lo as usize),
    }
}

/// The name that ends at `end`, looking back no further than `start`, unless it is empty.
pub open spec fn name_ending_at(s: Seq<char>, start: int, end: int) -> Seq<(NameStart, usize)> {
    let st = name_start(s, start, end);
    if st != NameStart::At(end as usize) {
        seq![(st, end as usize)]
    } else {
        Seq::empty()
    }
}

/// The crate name before the first "::" from `start` on, unless " as " comes before it.
pub open spec fn colon_part(s: Seq<char>, start: int) -> Seq<(NameStart, usize)> {
    match find_from(s, "::"@, start) {
        Some(end) => if find_from(s.subrange(start, end), " as "@, 0) is None {
            name_ending_at(s, start, end)
        } else {
            Seq::empty()
        },
        None => Seq::empty(),
    }
}

/// The crate name before the first "[" from `start` on.
pub open spec fn bracket_part(s: Seq<char>, start: int) -> Seq<(NameStart, usize)> {
    match find_from(s, "["@, start) {
        Some(end) => name_ending_at(s, start, end),
        None => Seq::empty(),
    }
}

/// The crate names found in `s` from `start` on: before the first "::" (when no " as " comes
/// before it), before the first "[", and again after each " as ".
pub open spec fn name_ranges_from(s: Seq<char>, start: int) -> Seq<(NameStart, usize)>
    decreases s.len() + 1 - start,
{
    if start < 0 || start > s.len() {
        Seq::empty()
    } else {
        let rest = match find_from(s, " as "@, start) {
            Some(j) => {
                proof {
                    lemma_find_from(s, " as "@, start);
                    reveal_strlit(" as ");
                }
                name_ranges_from(s, j + 4)
            },
            None => Seq::empty(),
        };
        colon_part(s, start) + bracket_part(s, start) + rest
    }
}

/// `s` without the elements equal to the one before them (`Vec::dedup`).
pub open spec fn dedup<T>(s: Seq<T>) -> Seq<T>
    decreases s.len(),
{
    if s.len() == 0 {
        s
    } else {
        let d = dedup(s.drop_last());
        if s.len() >= 2 && s[s.len() - 1] == s[s.len() - 2] {
            d
        } else {
            d.push(s[s.len() - 1])
        }
    }
}

/// The names of the ranges that start at a character, in order.
pub open spec fn range_names(s: Seq<char>, ranges: Seq<(NameStart, usize)>) -> Seq<Seq<char>>
    decreases ranges.len(),
{
    if ranges.len() == 0 {
        Seq::empty()
    } else {
        let init = range_names(s, ranges.drop_last());
        match ranges.last().0 {
            NameStart::At(st) => init.push(s.subrange(st as int, ranges.last().1 as int)),
            NameStart::IntoChar(_) => init,
        }
    }
}


proof fn lemma_last_non_name(s: Seq<char>, lo: int, hi: int)
    ensures
        last_non_name(s, lo, hi) matches Some(j) ==> lo <= j < hi,
    decreases hi - lo,
{
    if hi > lo && is_name_char(s[hi - 1]) {
        lemma_last_non_name(s, lo, hi - 1);
    }
}

/// The characters of `s`.
fn chars_of(s: &str) -> (r: Vec<char>)
    ensures
        r@ == s@,
{
    let n = s.unicode_len();
    let mut r: Vec<char> = Vec::new();
    let mut i: usize = 0;
    while i < n
        invariant
            n == s@.len(),
            i <= n,
            r@ == s@.subrange(0, i as int),
        decreases n - i,
    {
        r.push(s.get_char(i));
        i = i + 1;
        assert(r@ =~= s@.subrange(0, i as int));
    }
    r
}

/// `s[from..to]`.
fn chars_between(s: &Vec<char>, from: usize, to: usize) -> (r: Vec<char>)
    requires
        from <= to <= s@.len(),
    ensures
        r@ == s@.subrange(from as int, to as int),
{
    let mut r: Vec<char> = Vec::new();
    let mut i = from;
    while i < to
        invariant
            from <= i <= to <= s@.len(),
            r@ == s@.subrange(from as int, i as int),
        decreases to - i,
    {
        r.push(s[i]);
        i = i + 1;
        assert(r@ =~= s@.subrange(from as int, i as int));
    }
    r
}

/// The first place at or after `start` where `pat` occurs in `s`.
fn find_chars(s: &Vec<char>, pat: &Vec<char>, start: usize) -> (r: Option<usize>)
    ensures
        match find_from(s@, pat@, start as int) {
            Some(j) => r == Some(j as usize),
            None => r is None,
        },
{
    let n = s.len();
    let m = pat.len();
    let mut j = start;
    while j <= n && m <= n - j
        invariant
            start <= j,
            n == s@.len(),
            m == pat@.len(),
            find_from(s@, pat@, start as int) == find_from(s@, pat@, j as int),
        decreases n + 1 - j,
    {
        if m == 0 {
            assert(s@.subrange(j as int, j as int) =~= pat@);
            return Some(j);
        }
        let mut k: usize = 0;
        let mut same = true;
        while k < m && same
            invariant
                k <= m,
                j + m <= n,
                n == s@.len(),
                m == pat@.len(),
                same ==> forall|i: int| 0 <= i < k ==> s@[j + i] == pat@[i],
                !same ==> s@.subrange(j as int, j + m) != pat@,
            decreases m - k,
        {
            if s[j + k] != pat[k] {
                same = false;
                assert(s@.subrange(j as int, j + m)[k as int] != pat@[k as int]);
            }
            k = k + 1;
        }
        if same {
            assert(s@.subrange(j as int, j + m) =~= pat@);
            return Some(j);
        }
        j = j + 1;
    }
    None
}

/// Where the crate name that ends at `hi` starts, looking back no further than `lo`.
fn name_start_in(s: &Vec<char>, lo: usize, hi: usize) -> (r: NameStart)
    requires
        lo <= hi <= s@.len(),
    ensures
        r == name_start(s@, lo as int, hi as int),
        r matches NameStart::At(st) ==> lo <= st <= hi,
{
    let mut j = hi;
    while j > lo
        invariant
            lo <= j <= hi <= s@.len(),
            last_non_name(s@, lo as int, hi as int) == last_non_name(s@, lo as int, j as int),
        decreases j - lo,
    {
        let c = s[j - 1];
        if !(is_alphanumeric(c) || c == '_') {
            if (c as u32) < 0x80 {
                return NameStart::At(j);
            } else {
                return NameStart::IntoChar(j - 1);
            }
        }
        j = j - 1;
    }
    NameStart::At(lo)
}

/// The name that ends at `end`, looking back no further than `start`, pushed onto `ranges`
/// unless it is empty.
fn push_name_ending_at(ranges: &mut Vec<(NameStart, usize)>, s: &Vec<char>, start: usize, end: usize)
    requires
        start <= end <= s@.len(),
    ensures
        final(ranges)@ == old(ranges)@ + name_ending_at(s@, start as int, end as int),
        forall|k: int|
            0 <= k < final(ranges)@.len() && !(0 <= k < old(ranges)@.len()) ==> (
            #[trigger] final(ranges)@[k]).1 <= s@.len() && (final(ranges)@[k].0 matches NameStart::At(st)
                ==> st <= final(ranges)@[k].1),
{
    let st = name_start_in(s, start, end);
    if st != NameStart::At(end) {
        ranges.push((st, end));
    } else {
        assert(old(ranges)@ + name_ending_at(s@, start as int, end as int) =~= old(ranges)@);
    }
}

/// Where the crate names in `symbol_name` are: before "::" and "[", and again after each
/// " as ".
#[verifier::spinoff_prover]
#[verifier::rlimit(40)]
fn crate_name_ranges_in_symbol(symbol_name: &str) -> (r: Vec<(NameStart, usize)>)
    ensures
        r@ == name_ranges_from(symbol_name@, 0),
        forall|k: int|
            0 <= k < r@.len() ==> (#[trigger] r@[k]).1 <= symbol_name@.len() && (r@[k].0 matches NameStart::At(
                st,
            ) ==> st <= r@[k].1),
{
    let s = chars_of(symbol_name);
    let colons = chars_of("::");
    let bracket = chars_of("[");
    let as_pat = chars_of(" as ");
    proof {
        reveal_strlit(" as ");
    }
    let n = s.len();
    let mut ranges: Vec<(NameStart, usize)> = Vec::new();
    let mut start: usize = 0;
    let mut done = false;
    while !done
        invariant
            n == s@.len(),
            s@ == symbol_name@,
            colons@ == "::"@,
            bracket@ == "["@,
            as_pat@ == " as "@,
            as_pat@.len() == 4,
            start <= n,
            !done ==> name_ranges_from(s@, 0) == ranges@ + name_ranges_from(s@, start as int),
            done ==> name_ranges_from(s@, 0) == ranges@,
            forall|k: int|
                0 <= k < ranges@.len() ==> (#[trigger] ranges@[k]).1 <= n && (ranges@[k].0 matches NameStart::At(
                    st,
                ) ==> st <= ranges@[k].1),
        decreases (n + 1 - start) * 2 + if done {
            0int
        } else {
            1int
        },
    {
        let ghost before = ranges@;
        proof {
            lemma_find_from(s@, "::"@, start as int);
            lemma_find_from(s@, "["@, start as int);
            lemma_find_from(s@, " as "@, start as int);
        }
        match find_chars(&s, &colons, start) {
            Some(end) => {
                let sub = chars_between(&s, start, end);
                if find_chars(&sub, &as_pat, 0).is_none() {
                    push_name_ending_at(&mut ranges, &s, start, end);
                }
            },
            None => {},
        }
        assert(ranges@ == before + colon_part(s@, start as int));
        let ghost after_a = ranges@;
        match find_chars(&s, &bracket, start) {
            Some(end) => {
                push_name_ending_at(&mut ranges, &s, start, end);
            },
            None => {},
        }
        assert(ranges@ == after_a + bracket_part(s@, start as int));
        match find_chars(&s, &as_pat, start) {
            Some(j) => {
                proof {
                    assert(name_ranges_from(s@, start as int) == colon_part(s@, start as int)
                        + bracket_part(s@, start as int) + name_ranges_from(s@, j + 4));
                    assert(before + (colon_part(s@, start as int) + bracket_part(s@, start as int)
                        + name_ranges_from(s@, j + 4)) =~= ranges@ + name_ranges_from(s@, j + 4));
                }
                start = j + 4;
            },
            None => {
                proof {
                    assert(name_ranges_from(s@, start as int) == colon_part(s@, start as int)
                        + bracket_part(s@, start as int) + Seq::<(NameStart, usize)>::empty());
                    assert(before + (colon_part(s@, start as int) + bracket_part(s@, start as int)
                        + Seq::<(NameStart, usize)>::empty()) =~= ranges@);
                }
                done = true;
            },
        }
    }
    ranges
}

/// The names of the crates that `symbol_name` refers to, in order, each once in a row.
pub fn crate_names_in_symbol(symbol_name: &str) -> (r: Vec<&str>)
    ensures
        r@.map_values(|t: &str| t@) == range_names(
            symbol_name@,
            dedup(name_ranges_from(symbol_name@, 0)),
        ),
{
    let ranges = crate_name_ranges_in_symbol(symbol_name);
    let mut unique: Vec<(NameStart, usize)> = Vec::new();
    let mut i: usize = 0;
    while i < ranges.len()
        invariant
            i <= ranges@.len(),
            unique@ == dedup(ranges@.subrange(0, i as int)),
            forall|k: int| 0 <= k < unique@.len() ==> exists|q: int| 0 <= q < i && #[trigger] unique@[k] == ranges@[q],
        decreases ranges@.len() - i,
    {
        let ghost sub = ranges@.subrange(0, i + 1);
        proof {
            assert(sub.drop_last() =~= ranges@.subrange(0, i as int));
        }
        let (st, end) = ranges[i];
        let repeated = if i == 0 {
            false
        } else {
            let (prev_st, prev_end) = ranges[i - 1];
            st == prev_st && end == prev_end
        };
        if !repeated {
            unique.push((st, end));
        }
        i = i + 1;
        assert(ranges@.subrange(0, i as int) == sub);
    }
    assert(ranges@.subrange(0, ranges@.len() as int) =~= ranges@);
    let n = symbol_name.unicode_len();
    let mut names: Vec<&str> = Vec::new();
    let mut k: usize = 0;
    while k < unique.len()
        invariant
            k <= unique@.len(),
            n == symbol_name@.len(),
            forall|q: int| 0 <= q < unique@.len() ==> (#[trigger] unique@[q]).1 <= n && (unique@[q].0 matches NameStart::At(
                st,
            ) ==> st <= unique@[q].1),
            names@.map_values(|t: &str| t@) == range_names(symbol_name@, unique@.subrange(0, k as int)),
        decreases unique@.len() - k,
    {
        let ghost sub = unique@.subrange(0, k + 1);
        proof {
            assert(sub.drop_last() =~= unique@.subrange(0, k as int));
        }
        let (st, end) = unique[k];
        match st {
            NameStart::At(from) => {
                let ghost before = names@;
                names.push(symbol_name.substring_char(from, end));
                assert(names@.map_values(|t: &str| t@) =~= before.map_values(|t: &str| t@).push(
                    symbol_name@.subrange(from as int, end as int),
                ));
            },
            NameStart::IntoChar(_) => {},
        }
        k = k + 1;
        assert(unique@.subrange(0, k as int) == sub);
    }
    assert(unique@.subrange(0, unique@.len() as int) =~= unique@);
    names
}

} // verus!
