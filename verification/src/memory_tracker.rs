//! The record of what the kernel's memory holds: its own image, the framebuffer, the PCI
//! devices' memory, and each address space's mappings; and the report written from it.

use vstd::prelude::*;
use vstd::string::StringExecFns;

use crate::boot_info::BootInfo;
use crate::memory_types::{canonical, div_ceil, Page, VirtualAddress};
use crate::paging::PageRange;

verus! {

/// The lowercase hexadecimal digit of `d`.
pub open spec fn hex_char(d: nat) -> char {
    if d < 10 {
        (d + 48) as char
    } else {
        (d + 87) as char
    }
}

/// The last `n` hexadecimal digits of `v`, most significant first.
pub open spec fn hex_digits(v: nat, n: nat) -> Seq<char>
    decreases n,
{
    if n == 0 {
        Seq::empty()
    } else {
        hex_digits(v / 16, (n - 1) as nat) + seq![hex_char(v % 16)]
    }
}

/// `v` in sixteen lowercase hexadecimal digits, zeros in front.
pub open spec fn hex16(v: nat) -> Seq<char> {
    hex_digits(v, 16)
}

/// The string of the one hexadecimal digit `d`.
pub(crate) fn hex_digit_str(d: u64) -> (r: &'static str)
    requires
        d < 16,
    ensures
        r@ == seq![hex_char(d as nat)],
{
    proof {
        reveal_strlit("0");
        reveal_strlit("1");
        reveal_strlit("2");
        reveal_strlit("3");
        reveal_strlit("4");
        reveal_strlit("5");
        reveal_strlit("6");
        reveal_strlit("7");
        reveal_strlit("8");
        reveal_strlit("9");
        reveal_strlit("a");
        reveal_strlit("b");
        reveal_strlit("c");
        reveal_strlit("d");
        reveal_strlit("e");
        reveal_strlit("f");
    }
    match d {
        0 => "0",
        1 => "1",
        2 => "2",
        3 => "3",
        4 => "4",
        5 => "5",
        6 => "6",
        7 => "7",
        8 => "8",
        9 => "9",
        10 => "a",
        11 => "b",
        12 => "c",
        13 => "d",
        14 => "e",
        _ => "f",
    }
}

/// Appends `v` in sixteen lowercase hexadecimal digits to `out`.
pub fn append_hex16(out: &mut String, v: u64)
    ensures
        final(out)@ == old(out)@ + hex16(v as nat),
{
    let mut digits: Vec<u64> = Vec::new();
    let mut cur = v;
    let mut k: usize = 0;
    while k < 16
        invariant
            k <= 16,
            digits@.len() == k,
            hex16(v as nat) == hex_digits(cur as nat, (16 - k) as nat) + Seq::new(
                k as nat,
                |i: int| hex_char(digits@[k - 1 - i] as nat),
            ),
            forall|i: int| 0 <= i < k ==> #[trigger] digits@[i] < 16,
        decreases 16 - k,
    {
        let ghost before = digits@;
        let ghost cur0 = cur;
        digits.push(cur % 16);
        cur = cur / 16;
        k = k + 1;
        proof {
            let rest = hex_digits(cur as nat, (16 - k) as nat);
            assert(hex_digits(cur0 as nat, (16 - (k - 1)) as nat) == rest + seq![hex_char(
                (cur0 % 16) as nat,
            )]);
            assert(Seq::new((k - 1) as nat, |i: int| hex_char(before[k - 2 - i] as nat)) + Seq::new(
                0,
                |i: int| hex_char(0),
            ) =~= Seq::new((k - 1) as nat, |i: int| hex_char(before[k - 2 - i] as nat)));
            assert(seq![hex_char((cur0 % 16) as nat)] + Seq::new(
                (k - 1) as nat,
                |i: int| hex_char(before[k - 2 - i] as nat),
            ) =~= Seq::new(k as nat, |i: int| hex_char(digits@[k - 1 - i] as nat)));
        }
    }
    let ghost start = out@;
    let mut j: usize = 16;
    while j > 0
        invariant
            j <= 16,
            digits@.len() == 16,
            forall|i: int| 0 <= i < 16 ==> #[trigger] digits@[i] < 16,
            hex16(v as nat) == Seq::new(16, |i: int| hex_char(digits@[15 - i] as nat)),
            out@ == start + Seq::new((16 - j) as nat, |i: int| hex_char(digits@[15 - i] as nat)),
        decreases j,
    {
        j = j - 1;
        let d = hex_digit_str(digits[j]);
        let ghost before = out@;
        out.append(d);
        proof {
            assert(out@ =~= start + Seq::new((16 - j) as nat, |i: int| hex_char(digits@[15 - i] as nat)));
        }
    }
    proof {
        assert(Seq::new(16, |i: int| hex_char(digits@[15 - i] as nat)) =~= hex16(v as nat));
    }
}


/// The view of a name and a range of pages.
pub open spec fn named_view(v: Seq<(String, PageRange)>) -> Seq<(Seq<char>, PageRange)> {
    v.map_values(|e: (String, PageRange)| (e.0@, e.1))
}

/// The index of the first of `s` that starts after page `start`, or its length if none does.
pub open spec fn first_after(s: Seq<(Seq<char>, PageRange)>, start: u64) -> int
    decreases s.len(),
{
    if s.len() == 0 {
        0
    } else if s[0].1.start@ > start {
        0
    } else {
        1 + first_after(s.drop_first(), start)
    }
}

/// `s` ordered by first page, those that start on the same page in the order of `s`: each
/// taken in turn goes after those before it that start no later.
pub open spec fn sort_by_start(s: Seq<(Seq<char>, PageRange)>) -> Seq<(Seq<char>, PageRange)>
    decreases s.len(),
{
    if s.len() == 0 {
        s
    } else {
        let sorted = sort_by_start(s.drop_last());
        sorted.insert(first_after(sorted, s.last().1.start@), s.last())
    }
}

proof fn lemma_sort_len(s: Seq<(Seq<char>, PageRange)>)
    ensures
        sort_by_start(s).len() == s.len(),
    decreases s.len(),
{
    if s.len() > 0 {
        lemma_sort_len(s.drop_last());
        lemma_first_after_bound(sort_by_start(s.drop_last()), s.last().1.start@);
    }
}

proof fn lemma_first_after_bound(s: Seq<(Seq<char>, PageRange)>, start: u64)
    ensures
        0 <= first_after(s, start) <= s.len(),
        forall|i: int| 0 <= i < first_after(s, start) ==> (#[trigger] s[i]).1.start@ <= start,
        first_after(s, start) < s.len() ==> s[first_after(s, start)].1.start@ > start,
    decreases s.len(),
{
    if s.len() > 0 && s[0].1.start@ <= start {
        lemma_first_after_bound(s.drop_first(), start);
        assert forall|i: int| 0 <= i < first_after(s, start) implies (#[trigger] s[i]).1.start@ <= start by {
            if i > 0 {
                assert(s[i] == s.drop_first()[i - 1]);
            }
        }
    }
}

/// Every range of `s` has addresses.
pub open spec fn all_addressable(s: Seq<(Seq<char>, PageRange)>) -> bool {
    forall|i: int| 0 <= i < s.len() ==> pages_addressable(#[trigger] s[i].1)
}

proof fn lemma_sort_addressable(s: Seq<(Seq<char>, PageRange)>)
    requires
        all_addressable(s),
    ensures
        all_addressable(sort_by_start(s)),
    decreases s.len(),
{
    if s.len() > 0 {
        let init = s.drop_last();
        assert forall|i: int| 0 <= i < init.len() implies pages_addressable(#[trigger] init[i].1) by {
            assert(init[i] == s[i]);
        }
        lemma_sort_addressable(init);
        let sorted = sort_by_start(init);
        lemma_first_after_bound(sorted, s.last().1.start@);
        let p = first_after(sorted, s.last().1.start@);
        let r = sorted.insert(p, s.last());
        assert forall|i: int| 0 <= i < r.len() implies pages_addressable(#[trigger] r[i].1) by {
            if i < p {
                assert(r[i] == sorted[i]);
            } else if i > p {
                assert(r[i] == sorted[i - 1]);
            }
        }
    }
}

/// A copy of `ms` ordered by first page, keeping the order of those that start on the same
/// page.
pub fn sorted_by_start(ms: &Vec<(String, PageRange)>) -> (r: Vec<(String, PageRange)>)
    ensures
        named_view(r@) == sort_by_start(named_view(ms@)),
{
    let mut out: Vec<(String, PageRange)> = Vec::new();
    let mut i: usize = 0;
    while i < ms.len()
        invariant
            i <= ms@.len(),
            named_view(out@) == sort_by_start(named_view(ms@).take(i as int)),
        decreases ms@.len() - i,
    {
        let key = ms[i].1.start.number();
        let ghost sorted = named_view(out@);
        proof {
            lemma_first_after_bound(sorted, key);
        }
        let mut j: usize = 0;
        while j < out.len() && out[j].1.start.number() <= key
            invariant
                j <= out@.len(),
                sorted == named_view(out@),
                forall|k: int| 0 <= k < j ==> (#[trigger] sorted[k]).1.start@ <= key,
                first_after(sorted, key) >= j,
            decreases out@.len() - j,
        {
            proof {
                assert(sorted[j as int].1 == out@[j as int].1);
            }
            j = j + 1;
            proof {
                lemma_first_after_skip(sorted, key, j as int);
            }
        }
        proof {
            lemma_first_after_skip(sorted, key, j as int);
        }
        let entry = (ms[i].0.clone(), ms[i].1);
        out.insert(j, entry);
        proof {
            let taken = named_view(ms@).take(i + 1);
            assert(taken.drop_last() =~= named_view(ms@).take(i as int));
            assert(named_view(out@) =~= sorted.insert(j as int, (ms@[i as int].0@, ms@[i as int].1)));
        }
        i = i + 1;
    }
    proof {
        assert(named_view(ms@).take(i as int) =~= named_view(ms@));
    }
    out
}

/// Where the scan for the first of `s` after `start` stands once the first `j` are seen to
/// start no later.
proof fn lemma_first_after_skip(s: Seq<(Seq<char>, PageRange)>, start: u64, j: int)
    requires
        0 <= j <= s.len(),
        forall|k: int| 0 <= k < j ==> (#[trigger] s[k]).1.start@ <= start,
    ensures
        first_after(s, start) >= j,
        j < s.len() && s[j].1.start@ > start ==> first_after(s, start) == j,
        j == s.len() ==> first_after(s, start) == j,
    decreases j,
{
    lemma_first_after_bound(s, start);
    if j > 0 {
        assert(s[0].1.start@ <= start);
        assert forall|k: int| 0 <= k < j - 1 implies (#[trigger] s.drop_first()[k]).1.start@ <= start by {
            assert(s.drop_first()[k] == s[k + 1]);
        }
        lemma_first_after_skip(s.drop_first(), start, j - 1);
    }
}

/// Both ends of `pages` have an address.
pub open spec fn pages_addressable(pages: PageRange) -> bool {
    pages.start@ * 4096 <= u64::MAX && pages.end@ * 4096 <= u64::MAX
}

/// The report's line for a memory area: its first and end addresses, and its name.
pub open spec fn area_line(pages: PageRange, name: Seq<char>) -> Seq<char> {
    "    "@ + hex16((pages.start@ * 4096) as nat) + " "@ + hex16((pages.end@ * 4096) as nat)
        + "    "@ + name + "\n"@
}

/// The report's lines for `areas`, in order.
pub open spec fn area_lines(areas: Seq<(Seq<char>, PageRange)>) -> Seq<char>
    decreases areas.len(),
{
    if areas.len() == 0 {
        Seq::empty()
    } else {
        area_lines(areas.drop_last()) + area_line(areas.last().1, areas.last().0)
    }
}

/// The report's line for a mapping of an address space.
pub open spec fn mapping_line(mapping: (Seq<char>, PageRange)) -> Seq<char> {
    "\n        "@ + hex16((mapping.1.start@ * 4096) as nat) + " "@ + hex16(
        (mapping.1.end@ * 4096) as nat,
    ) + "        "@ + mapping.0
}

/// The report's lines for `mappings`, in order.
pub open spec fn mapping_lines(mappings: Seq<(Seq<char>, PageRange)>) -> Seq<char>
    decreases mappings.len(),
{
    if mappings.len() == 0 {
        Seq::empty()
    } else {
        mapping_lines(mappings.drop_last()) + mapping_line(mappings.last())
    }
}

/// The report's text for an address space: its level 4 table's frame, its name, and its
/// mappings by address.
pub open spec fn space_text(
    name: Seq<char>,
    frame: u64,
    mappings: Seq<(Seq<char>, PageRange)>,
) -> Seq<char> {
    "\n    "@ + hex16((frame * 4096) as nat) + "                         "@ + name + mapping_lines(
        sort_by_start(mappings),
    )
}

/// The report's text for `spaces`, in order.
pub open spec fn spaces_text(spaces: Seq<(Seq<char>, u64, Seq<(Seq<char>, PageRange)>)>) -> Seq<
    char,
>
    decreases spaces.len(),
{
    if spaces.len() == 0 {
        Seq::empty()
    } else {
        let last = spaces.last();
        spaces_text(spaces.drop_last()) + space_text(last.0, last.1, last.2)
    }
}

/// The memory report: the kernel's image, the framebuffer and the PCI devices' memory, then
/// the address spaces in the order given.
pub open spec fn memory_report(
    kernel: PageRange,
    framebuffer: PageRange,
    bars: Seq<(Seq<char>, PageRange)>,
    spaces: Seq<(Seq<char>, u64, Seq<(Seq<char>, PageRange)>)>,
) -> Seq<char> {
    "\n--- MEMORY AREAS ---\n"@ + area_line(kernel, "kernel"@) + area_line(
        framebuffer,
        "framebuffer"@,
    ) + area_lines(bars) + "\n--- ADDRESS SPACES ---"@ + spaces_text(spaces)
}

/// Appends the report's line for an area.
fn append_area_line(out: &mut String, pages: PageRange, name: &str)
    requires
        pages_addressable(pages),
    ensures
        final(out)@ == old(out)@ + area_line(pages, name@),
{
    out.append("    ");
    append_hex16(out, pages.start.base_addr().to_raw());
    out.append(" ");
    append_hex16(out, pages.end.base_addr().to_raw());
    out.append("    ");
    out.append(name);
    out.append("\n");
    proof {
        assert(out@ =~= old(out)@ + area_line(pages, name@));
    }
}

/// Appends the report's line for a mapping.
fn append_mapping_line(out: &mut String, mapping: &(String, PageRange))
    requires
        pages_addressable(mapping.1),
    ensures
        final(out)@ == old(out)@ + mapping_line((mapping.0@, mapping.1)),
{
    out.append("\n        ");
    append_hex16(out, mapping.1.start.base_addr().to_raw());
    out.append(" ");
    append_hex16(out, mapping.1.end.base_addr().to_raw());
    out.append("        ");
    out.append(mapping.0.as_str());
    proof {
        assert(out@ =~= old(out)@ + mapping_line((mapping.0@, mapping.1)));
    }
}

/// The view of an address space's name, frame and mappings.
pub open spec fn space_view(e: (String, u64, Vec<(String, PageRange)>)) -> (
    Seq<char>,
    u64,
    Seq<(Seq<char>, PageRange)>,
) {
    (e.0@, e.1, named_view(e.2@))
}

/// `walk` holds each entry of `spaces` once, its key and its mappings.
pub open spec fn is_walk_of(
    walk: Seq<(Seq<char>, u64, Seq<(Seq<char>, PageRange)>)>,
    spaces: Map<(Seq<char>, u64), Seq<(Seq<char>, PageRange)>>,
) -> bool {
    &&& forall|i: int|
        0 <= i < walk.len() ==> spaces.dom().contains((#[trigger] walk[i].0, walk[i].1))
            && spaces[(walk[i].0, walk[i].1)] == walk[i].2
    &&& forall|k: (Seq<char>, u64)|
        #[trigger] spaces.dom().contains(k) ==> exists|i: int|
            0 <= i < walk.len() && (walk[i].0, walk[i].1) == k
    &&& forall|i: int, j: int|
        0 <= i < j < walk.len() ==> (#[trigger] walk[i].0, walk[i].1) != (#[trigger] walk[j].0, walk[j].1)
}

/// The mappings of each address space, by the address space's name and the frame of its
/// level 4 table, held in a `hashbrown::HashMap` with the `rustc_hash` hasher.
#[verifier::external_body]
pub struct SpaceMap {
    map: hashbrown::HashMap<(String, u64), Vec<(String, PageRange)>, rustc_hash::FxBuildHasher>,
}

/// What a [`SpaceMap`] holds.
pub uninterp spec fn space_mappings(spaces: SpaceMap) -> Map<
    (Seq<char>, u64),
    Seq<(Seq<char>, PageRange)>,
>;

impl SpaceMap {
    /// `hashbrown::HashMap::with_hasher`: a map that holds nothing.
    #[verifier::external_body]
    fn new() -> (r: Self)
        ensures
            space_mappings(r).dom().is_empty(),
    {
        SpaceMap { map: hashbrown::HashMap::with_hasher(rustc_hash::FxBuildHasher) }
    }

    /// `hashbrown::HashMap::get`, the mappings cloned: those of the given address space, if it
    /// has an entry.
    #[verifier::external_body]
    fn get(&self, name: String, frame: u64) -> (r: Option<Vec<(String, PageRange)>>)
        ensures
            r is Some <==> space_mappings(*self).dom().contains((name@, frame)),
            r matches Some(v) ==> named_view(v@) == space_mappings(*self)[(name@, frame)],
    {
        self.map.get(&(name, frame)).cloned()
    }

    /// `hashbrown::HashMap::insert`: the address space's entry is now `mappings`.
    #[verifier::external_body]
    fn insert(&mut self, name: String, frame: u64, mappings: Vec<(String, PageRange)>)
        ensures
            space_mappings(*final(self)) == space_mappings(*old(self)).insert(
                (name@, frame),
                named_view(mappings@),
            ),
    {
        self.map.insert((name, frame), mappings);
    }

    /// `hashbrown::HashMap::remove`: the address space no longer has an entry.
    #[verifier::external_body]
    fn remove(&mut self, name: String, frame: u64)
        ensures
            space_mappings(*final(self)) == space_mappings(*old(self)).remove((name@, frame)),
    {
        self.map.remove(&(name, frame));
    }

    /// `hashbrown::HashMap::iter`, each entry cloned: every entry once, in the map's order.
    #[verifier::external_body]
    fn entries(&self) -> (r: Vec<(String, u64, Vec<(String, PageRange)>)>)
        ensures
            is_walk_of(r@.map_values(|e: (String, u64, Vec<(String, PageRange)>)| space_view(e)), space_mappings(*self)),
    {
        self.map.iter().map(|((name, frame), mappings)| (name.clone(), *frame, mappings.clone())).collect()
    }
}

/// The pages `size` bytes take from the page that holds `base`.
pub open spec fn pages_from(base: u64, size: int) -> (u64, int) {
    ((base / 4096) as u64, base / 4096 + div_ceil(size, 4096))
}

/// What the kernel's memory holds: its image, the framebuffer, the PCI devices' memory ordered
/// by address, and each address space's mappings.
pub struct MemoryTracker {
    spaces: SpaceMap,
    kernel_pages: PageRange,
    framebuffer_pages: PageRange,
    pci_bar_pages: Vec<(String, PageRange)>,
}

impl MemoryTracker {
    /// The address spaces' mappings, by name and frame.
    pub closed spec fn spaces(&self) -> Map<(Seq<char>, u64), Seq<(Seq<char>, PageRange)>> {
        space_mappings(self.spaces)
    }

    /// The pages of the kernel's image.
    pub closed spec fn kernel_pages(&self) -> PageRange {
        self.kernel_pages
    }

    /// The pages of the framebuffer.
    pub closed spec fn framebuffer_pages(&self) -> PageRange {
        self.framebuffer_pages
    }

    /// The PCI devices' memory, each with its name.
    pub closed spec fn pci_bars(&self) -> Seq<(Seq<char>, PageRange)> {
        named_view(self.pci_bar_pages@)
    }

    /// Every recorded page and frame has an address.
    pub open spec fn addressable(&self) -> bool {
        &&& pages_addressable(self.kernel_pages())
        &&& pages_addressable(self.framebuffer_pages())
        &&& forall|i: int| 0 <= i < self.pci_bars().len() ==> pages_addressable(#[trigger] self.pci_bars()[i].1)
        &&& forall|k: (Seq<char>, u64)| #[trigger] self.spaces().dom().contains(k) ==> k.1 * 4096 <= u64::MAX
            && forall|i: int| 0 <= i < self.spaces()[k].len() ==> pages_addressable(#[trigger] self.spaces()[k][i].1)
    }

    /// A tracker that holds nothing: no address space, no device memory, and empty ranges for
    /// the kernel and the framebuffer.
    pub fn new() -> (r: Self)
        ensures
            r.spaces().dom().is_empty(),
            r.kernel_pages().start@ == 0 && r.kernel_pages().end@ == 0,
            r.framebuffer_pages().start@ == 0 && r.framebuffer_pages().end@ == 0,
            r.pci_bars().len() == 0,
    {
        MemoryTracker {
            spaces: SpaceMap::new(),
            kernel_pages: PageRange::new(Page::new(0), Page::new(0)),
            framebuffer_pages: PageRange::new(Page::new(0), Page::new(0)),
            pci_bar_pages: Vec::new(),
        }
    }

    /// Records where the kernel's image and the framebuffer lie.
    pub fn init(&mut self, boot_info: &BootInfo)
        requires
            boot_info.kernel_start <= boot_info.kernel_end,
        ensures
            final(self).kernel_pages().start@ == pages_from(
                canonical(boot_info.kernel_start as u64),
                boot_info.kernel_end - boot_info.kernel_start,
            ).0,
            final(self).kernel_pages().end@ == pages_from(
                canonical(boot_info.kernel_start as u64),
                boot_info.kernel_end - boot_info.kernel_start,
            ).1,
            final(self).framebuffer_pages().start@ == pages_from(
                canonical(boot_info.display_info.framebuffer_addr as usize as u64),
                boot_info.display_info.framebuffer_size as int,
            ).0,
            final(self).framebuffer_pages().end@ == pages_from(
                canonical(boot_info.display_info.framebuffer_addr as usize as u64),
                boot_info.display_info.framebuffer_size as int,
            ).1,
            final(self).spaces() == old(self).spaces(),
            final(self).pci_bars() == old(self).pci_bars(),
    {
        let kernel_base = VirtualAddress::new(boot_info.kernel_start as u64);
        let kernel_size = boot_info.kernel_end - boot_info.kernel_start;
        proof {
            lemma_pages_from_fit(kernel_base@, kernel_size as int);
        }
        self.kernel_pages = PageRange::from_base_size(kernel_base, kernel_size);
        let framebuffer_base = VirtualAddress::new(
            boot_info.display_info.framebuffer_addr as usize as u64,
        );
        let framebuffer_size = boot_info.display_info.framebuffer_size;
        proof {
            lemma_pages_from_fit(framebuffer_base@, framebuffer_size as int);
        }
        self.framebuffer_pages = PageRange::from_base_size(framebuffer_base, framebuffer_size);
    }

    /// Records the memory of a PCI device under `name`, keeping the devices ordered by address.
    pub fn register_pci_bar(&mut self, name: String, pages: PageRange)
        ensures
            final(self).pci_bars() == sort_by_start(old(self).pci_bars().push((name@, pages))),
            final(self).spaces() == old(self).spaces(),
            final(self).kernel_pages() == old(self).kernel_pages(),
            final(self).framebuffer_pages() == old(self).framebuffer_pages(),
    {
        self.pci_bar_pages.push((name, pages));
        self.pci_bar_pages = sorted_by_start(&self.pci_bar_pages);
        proof {
            assert(named_view(old(self).pci_bar_pages@.push((name, pages))) =~= old(self).pci_bars().push((name@, pages)));
        }
    }

    /// Records that the address space `space_name`, whose level 4 table is in frame `frame`,
    /// mapped `pages` under `name`.
    pub fn record_mapping(&mut self, space_name: String, frame: u64, name: String, pages: PageRange)
        ensures
            final(self).spaces() == old(self).spaces().insert(
                (space_name@, frame),
                (if old(self).spaces().dom().contains((space_name@, frame)) {
                    old(self).spaces()[(space_name@, frame)]
                } else {
                    Seq::empty()
                }).push((name@, pages)),
            ),
            final(self).pci_bars() == old(self).pci_bars(),
            final(self).kernel_pages() == old(self).kernel_pages(),
            final(self).framebuffer_pages() == old(self).framebuffer_pages(),
    {
        let mut mappings = match self.spaces.get(space_name.clone(), frame) {
            Some(v) => v,
            None => Vec::new(),
        };
        let ghost before = named_view(mappings@);
        proof {
            let key = (space_name@, frame);
            assert(before =~= (if old(self).spaces().dom().contains(key) {
                old(self).spaces()[key]
            } else {
                Seq::empty()
            }));
        }
        mappings.push((name, pages));
        proof {
            assert(named_view(mappings@) =~= before.push((name@, pages)));
        }
        self.spaces.insert(space_name, frame, mappings);
    }

    /// The memory report: the kernel's image, the framebuffer and the PCI devices' memory,
    /// then each address space in the order the map walks them, with its mappings by address.
    pub fn dump_info(&self) -> (r: String)
        requires
            self.addressable(),
        ensures
            exists|walk: Seq<(Seq<char>, u64, Seq<(Seq<char>, PageRange)>)>|
                is_walk_of(walk, self.spaces()) && r@ == memory_report(
                    self.kernel_pages(),
                    self.framebuffer_pages(),
                    self.pci_bars(),
                    walk,
                ),
    {
        let mut out = String::new();
        out.append("\n--- MEMORY AREAS ---\n");
        append_area_line(&mut out, self.kernel_pages, "kernel");
        append_area_line(&mut out, self.framebuffer_pages, "framebuffer");
        let ghost areas_start = out@;
        let ghost bars = self.pci_bars();
        let mut i: usize = 0;
        while i < self.pci_bar_pages.len()
            invariant
                self.addressable(),
                bars == self.pci_bars(),
                i <= bars.len(),
                out@ == areas_start + area_lines(bars.take(i as int)),
            decreases bars.len() - i,
        {
            assert(pages_addressable(bars[i as int].1));
            append_area_line(&mut out, self.pci_bar_pages[i].1, self.pci_bar_pages[i].0.as_str());
            proof {
                assert(bars.take(i + 1).drop_last() =~= bars.take(i as int));
                assert(bars[i as int] == (self.pci_bar_pages@[i as int].0@, self.pci_bar_pages@[i as int].1));
            }
            i = i + 1;
        }
        proof {
            assert(bars.take(i as int) =~= bars);
        }
        out.append("\n--- ADDRESS SPACES ---");
        let ghost spaces_start = out@;
        let entries = self.spaces.entries();
        let ghost walk = entries@.map_values(|e: (String, u64, Vec<(String, PageRange)>)| space_view(e));
        let mut k: usize = 0;
        while k < entries.len()
            invariant
                self.addressable(),
                walk == entries@.map_values(|e: (String, u64, Vec<(String, PageRange)>)| space_view(e)),
                is_walk_of(walk, self.spaces()),
                k <= entries@.len(),
                out@ == spaces_start + spaces_text(walk.take(k as int)),
            decreases entries@.len() - k,
        {
            let entry = &entries[k];
            let ghost key = (walk[k as int].0, walk[k as int].1);
            proof {
                assert(self.spaces().dom().contains(key));
                assert(all_addressable(walk[k as int].2)) by {
                    assert forall|m: int| 0 <= m < walk[k as int].2.len() implies pages_addressable(
                        #[trigger] walk[k as int].2[m].1,
                    ) by {
                        assert(self.spaces()[key] == walk[k as int].2);
                        assert(pages_addressable(self.spaces()[key][m].1));
                    }
                }
            }
            let ghost text_start = out@;
            out.append("\n    ");
            append_hex16(&mut out, entry.1 * 4096);
            out.append("                         ");
            out.append(entry.0.as_str());
            let sorted = sorted_by_start(&entry.2);
            let ghost sorted_view = named_view(sorted@);
            proof {
                lemma_sort_addressable(walk[k as int].2);
            }
            let ghost lines_start = out@;
            let mut m: usize = 0;
            while m < sorted.len()
                invariant
                    sorted_view == named_view(sorted@),
                    all_addressable(sorted_view),
                    m <= sorted@.len(),
                    out@ == lines_start + mapping_lines(sorted_view.take(m as int)),
                decreases sorted@.len() - m,
            {
                assert(pages_addressable(sorted_view[m as int].1));
                append_mapping_line(&mut out, &sorted[m]);
                proof {
                    assert(sorted_view.take(m + 1).drop_last() =~= sorted_view.take(m as int));
                }
                m = m + 1;
            }
            proof {
                assert(sorted_view.take(m as int) =~= sorted_view);
                assert(walk.take(k + 1).drop_last() =~= walk.take(k as int));
                assert(out@ =~= spaces_start + spaces_text(walk.take(k + 1)));
            }
            k = k + 1;
        }
        proof {
            assert(walk.take(k as int) =~= walk);
            assert(out@ =~= memory_report(
                self.kernel_pages(),
                self.framebuffer_pages(),
                self.pci_bars(),
                walk,
            ));
        }
        out
    }

    /// Forgets the address space `space_name` whose level 4 table is in frame `frame`.
    pub fn forget_space(&mut self, space_name: String, frame: u64)
        ensures
            final(self).spaces() == old(self).spaces().remove((space_name@, frame)),
            final(self).pci_bars() == old(self).pci_bars(),
            final(self).kernel_pages() == old(self).kernel_pages(),
            final(self).framebuffer_pages() == old(self).framebuffer_pages(),
    {
        self.spaces.remove(space_name, frame);
    }
}

proof fn lemma_pages_from_fit(base: u64, size: int)
    requires
        0 <= size <= usize::MAX,
    ensures
        base / 4096 + div_ceil(size, 4096) <= u64::MAX,
{
    assert(base / 4096 <= 0x10_0000_0000_0000);
    assert(div_ceil(size, 4096) <= 0x10_0000_0000_0000);
}

} // verus!
