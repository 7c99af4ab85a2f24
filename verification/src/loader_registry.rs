//! The loader's record of what it loaded: each object by name, each global section by name,
//! and every section by the range of addresses it takes.

use vstd::prelude::*;
use vstd::string::{StrSliceExecFns, StringExecFns};

use crate::loader::{
    char_utf8_len, crate_names_in_symbol, dedup, kind_name, name_ranges_from, range_names, utf8_len,
    PlacedSection, SectionKind,
};
use crate::memory_tracker::{hex_char, hex_digit_str};
use crate::serial::{append_decimal, decimal};
use crate::memory_types::{canonical, VirtualAddress};
use crate::vfat::{has_prefix, str_starts_with};

verus! {

/// Whether `s` ends with `suffix`.
pub open spec fn has_suffix(s: Seq<char>, suffix: Seq<char>) -> bool {
    suffix.len() <= s.len() && s.subrange(s.len() - suffix.len(), s.len() as int) == suffix
}

/// `str::ends_with` for a `&str` pattern.
pub fn str_ends_with(s: &str, suffix: &str) -> (r: bool)
    ensures
        r == has_suffix(s@, suffix@),
{
    let n = s.unicode_len();
    let m = suffix.unicode_len();
    if m > n {
        return false;
    }
    let mut i: usize = 0;
    while i < m
        invariant
            m <= n,
            n == s@.len(),
            m == suffix@.len(),
            i <= m,
            forall|j: int| 0 <= j < i ==> s@[n - m + j] == suffix@[j],
        decreases m - i,
    {
        if s.get_char(n - m + i) != suffix.get_char(i) {
            assert(s@.subrange(n - m, n as int)[i as int] != suffix@[i as int]);
            return false;
        }
        i = i + 1;
    }
    assert(s@.subrange(n - m, n as int) =~= suffix@);
    true
}

/// Names, each with a number, held in a `hashbrown::HashMap` with the `rustc_hash` hasher.
#[verifier::external_body]
pub struct NameTable {
    map: hashbrown::HashMap<String, usize, rustc_hash::FxBuildHasher>,
}

/// What a [`NameTable`] holds.
pub uninterp spec fn table_entries(table: NameTable) -> Map<Seq<char>, usize>;

impl NameTable {
    /// `hashbrown::HashMap::with_hasher`: a table that holds nothing.
    #[verifier::external_body]
    fn new() -> (r: Self)
        ensures
            table_entries(r).dom().is_empty(),
    {
        NameTable { map: hashbrown::HashMap::with_hasher(rustc_hash::FxBuildHasher) }
    }

    /// `hashbrown::HashMap::insert`: `name` now has `value`; what it had before, if anything.
    #[verifier::external_body]
    fn insert(&mut self, name: String, value: usize) -> (r: Option<usize>)
        ensures
            table_entries(*final(self)) == table_entries(*old(self)).insert(name@, value),
            r is Some <==> table_entries(*old(self)).dom().contains(name@),
            r matches Some(v) ==> v == table_entries(*old(self))[name@],
    {
        self.map.insert(name, value)
    }

    /// `hashbrown::HashMap::get`: the value of `name`, if it has one.
    #[verifier::external_body]
    fn get(&self, name: &str) -> (r: Option<usize>)
        ensures
            r is Some <==> table_entries(*self).dom().contains(name@),
            r matches Some(v) ==> v == table_entries(*self)[name@],
    {
        self.map.get(name).copied()
    }

    /// `hashbrown::HashMap::iter`, each entry cloned: every name once with its value, in the
    /// table's order.
    #[verifier::external_body]
    fn entries(&self) -> (r: Vec<(String, usize)>)
        ensures
            forall|i: int|
                0 <= i < r@.len() ==> table_entries(*self).dom().contains((#[trigger] r@[i]).0@)
                    && table_entries(*self)[r@[i].0@] == r@[i].1,
            forall|k: Seq<char>|
                #[trigger] table_entries(*self).dom().contains(k) ==> exists|i: int|
                    0 <= i < r@.len() && (#[trigger] r@[i]).0@ == k,
            forall|i: int, j: int| 0 <= i < j < r@.len() ==> (#[trigger] r@[i]).0@ != (#[trigger] r@[j]).0@,
    {
        self.map.iter().map(|(name, value)| (name.clone(), *value)).collect()
    }
}

/// Whether a section at `addr` of `size` bytes holds `x`.
pub open spec fn range_holds(addr: u64, size: usize, x: u64) -> bool {
    addr <= x && x < canonical((addr + size) as u64)
}

/// `(a, s)` comes before `(b, t)`: by address, then by size.
pub open spec fn range_before(a: (u64, usize), b: (u64, usize)) -> bool {
    a.0 < b.0 || (a.0 == b.0 && a.1 < b.1)
}

/// `ranges`, ordered by address then size, with `e` put in its place, in place of the entry of
/// the same range if there is one.
pub open spec fn insert_range(ranges: Seq<(u64, usize, usize)>, e: (u64, usize, usize)) -> Seq<
    (u64, usize, usize),
>
    decreases ranges.len(),
{
    if ranges.len() == 0 {
        seq![e]
    } else if range_before((ranges[0].0, ranges[0].1), (e.0, e.1)) {
        seq![ranges[0]] + insert_range(ranges.drop_first(), e)
    } else if ranges[0].0 == e.0 && ranges[0].1 == e.1 {
        seq![e] + ranges.drop_first()
    } else {
        seq![e] + ranges
    }
}

/// The index of the first of `ranges` that holds `x`.
pub open spec fn first_holding(ranges: Seq<(u64, usize, usize)>, x: u64) -> Option<int>
    decreases ranges.len(),
{
    if ranges.len() == 0 {
        None
    } else if range_holds(ranges[0].0, ranges[0].1, x) {
        Some(0)
    } else {
        match first_holding(ranges.drop_first(), x) {
            Some(i) => Some(i + 1),
            None => None,
        }
    }
}

/// The global names after each of `sections`, in order, takes its number from `first` on.
pub open spec fn names_after(
    names: Map<Seq<char>, usize>,
    sections: Seq<PlacedSection>,
    first: int,
) -> Map<Seq<char>, usize>
    decreases sections.len(),
{
    if sections.len() == 0 {
        names
    } else {
        let before = names_after(names, sections.drop_last(), first);
        let last = sections.last();
        if last.global {
            before.insert(last.name@, (first + sections.len() - 1) as usize)
        } else {
            before
        }
    }
}

/// How many of `sections` bring a global name not seen before.
pub open spec fn new_names(
    names: Map<Seq<char>, usize>,
    sections: Seq<PlacedSection>,
    first: int,
) -> nat
    decreases sections.len(),
{
    if sections.len() == 0 {
        0
    } else {
        let before = names_after(names, sections.drop_last(), first);
        let last = sections.last();
        new_names(names, sections.drop_last(), first) + if last.global && !before.dom().contains(
            last.name@,
        ) {
            1nat
        } else {
            0nat
        }
    }
}

/// The ranges after each of `sections`, in order, is put in place with its number from
/// `first` on.
pub open spec fn ranges_after(
    ranges: Seq<(u64, usize, usize)>,
    sections: Seq<PlacedSection>,
    first: int,
) -> Seq<(u64, usize, usize)>
    decreases sections.len(),
{
    if sections.len() == 0 {
        ranges
    } else {
        let last = sections.last();
        insert_range(
            ranges_after(ranges, sections.drop_last(), first),
            (last.addr@, last.size, (first + sections.len() - 1) as usize),
        )
    }
}

/// The ranges are in order, each once.
pub open spec fn ranges_sorted(ranges: Seq<(u64, usize, usize)>) -> bool {
    forall|i: int, j: int|
        0 <= i < j < ranges.len() ==> range_before(
            ((#[trigger] ranges[i]).0, ranges[i].1),
            ((#[trigger] ranges[j]).0, ranges[j].1),
        )
}

proof fn lemma_insert_range_at(ranges: Seq<(u64, usize, usize)>, e: (u64, usize, usize), j: int)
    requires
        0 <= j <= ranges.len(),
        forall|k: int| 0 <= k < j ==> range_before(((#[trigger] ranges[k]).0, ranges[k].1), (e.0, e.1)),
        j < ranges.len() ==> !range_before((ranges[j].0, ranges[j].1), (e.0, e.1)),
    ensures
        insert_range(ranges, e) == if j < ranges.len() && ranges[j].0 == e.0 && ranges[j].1 == e.1 {
            ranges.take(j) + seq![e] + ranges.skip(j + 1)
        } else {
            ranges.take(j) + seq![e] + ranges.skip(j)
        },
    decreases j,
{
    if j == 0 {
        if ranges.len() > 0 {
            assert(ranges.skip(1) =~= ranges.drop_first());
        }
        assert(ranges.take(0) + seq![e] + ranges.skip(0) =~= seq![e] + ranges);
        assert(ranges.take(0) + seq![e] + ranges.skip(1) =~= seq![e] + ranges.skip(1));
    } else {
        let rest = ranges.drop_first();
        assert(range_before((ranges[0].0, ranges[0].1), (e.0, e.1)));
        assert forall|k: int| 0 <= k < j - 1 implies range_before(((#[trigger] rest[k]).0, rest[k].1), (e.0, e.1)) by {
            assert(rest[k] == ranges[k + 1]);
        }
        lemma_insert_range_at(rest, e, j - 1);
        assert(ranges.take(j) =~= seq![ranges[0]] + rest.take(j - 1));
        assert(ranges.skip(j) =~= rest.skip(j - 1));
        if j < ranges.len() {
            assert(ranges.skip(j + 1) =~= rest.skip(j));
        }
    }
}

/// The index of the first of `names` that is not among `objects`.
pub open spec fn first_unloaded(names: Seq<Seq<char>>, objects: Map<Seq<char>, usize>) -> Option<int>
    decreases names.len(),
{
    if names.len() == 0 {
        None
    } else if !objects.dom().contains(names[0]) {
        Some(0)
    } else {
        match first_unloaded(names.drop_first(), objects) {
            Some(i) => Some(i + 1),
            None => None,
        }
    }
}

/// Where a section to relocate against comes from: a section already loaded, an object still
/// to load for it, or nowhere.
#[derive(Debug)]
pub enum SectionLookup {
    /// The section of this number has the name.
    Found(usize),
    /// The object of this name, a crate the name mentions, is not loaded yet.
    Load(String),
    /// No section has the name, and every crate it mentions is loaded.
    Missing,
}

/// The loader's record: the sections it loaded, the global ones by name, all of them by the
/// range they take, and the objects by name.
pub struct Loader {
    objects: NameTable,
    sections: NameTable,
    sections_by_addr: Vec<(u64, usize, usize)>,
    loaded: Vec<PlacedSection>,
}

impl Loader {
    /// The loaded objects, each with its number.
    pub closed spec fn objects(&self) -> Map<Seq<char>, usize> {
        table_entries(self.objects)
    }

    /// The global sections by name, each with its number.
    pub closed spec fn section_names(&self) -> Map<Seq<char>, usize> {
        table_entries(self.sections)
    }

    /// Every section loaded, by number.
    pub closed spec fn loaded(&self) -> Seq<PlacedSection> {
        self.loaded@
    }

    /// The sections by the range they take: ordered by address, then size, each range once.
    pub closed spec fn by_addr(&self) -> Seq<(u64, usize, usize)> {
        self.sections_by_addr@
    }

    /// Every number refers to a loaded section, or for an object to the end of those loaded,
    /// the ranges are in order and end within the address space.
    pub closed spec fn wf(&self) -> bool {
        &&& forall|k: Seq<char>| #[trigger] self.section_names().dom().contains(k) ==> self.section_names()[k]
            < self.loaded@.len()
        &&& forall|k: Seq<char>| #[trigger] self.objects().dom().contains(k) ==> self.objects()[k]
            <= self.loaded@.len()
        &&& forall|i: int|
            0 <= i < self.sections_by_addr@.len() ==> (#[trigger] self.sections_by_addr@[i]).2
                < self.loaded@.len() && self.sections_by_addr@[i].0 + self.sections_by_addr@[i].1
                <= u64::MAX
        &&& forall|i: int, j: int|
            0 <= i < j < self.sections_by_addr@.len() ==> range_before(
                ((#[trigger] self.sections_by_addr@[i]).0, self.sections_by_addr@[i].1),
                ((#[trigger] self.sections_by_addr@[j]).0, self.sections_by_addr@[j].1),
            )
    }

    /// Puts `e` among the ranges in its place, in place of the entry of the same range.
    fn put_range(&mut self, e: (u64, usize, usize))
        requires
            old(self).wf(),
            e.2 < old(self).loaded@.len(),
            e.0 + e.1 <= u64::MAX,
        ensures
            final(self).wf(),
            final(self).by_addr() == insert_range(old(self).by_addr(), e),
            final(self).objects() == old(self).objects(),
            final(self).section_names() == old(self).section_names(),
            final(self).loaded() == old(self).loaded(),
    {
        let ghost s = self.sections_by_addr@;
        let mut j: usize = 0;
        while j < self.sections_by_addr.len() && (self.sections_by_addr[j].0 < e.0 || (
        self.sections_by_addr[j].0 == e.0 && self.sections_by_addr[j].1 < e.1))
            invariant
                s == self.sections_by_addr@,
                j <= s.len(),
                forall|k: int| 0 <= k < j ==> range_before(((#[trigger] s[k]).0, s[k].1), (e.0, e.1)),
            decreases s.len() - j,
        {
            j = j + 1;
        }
        proof {
            lemma_insert_range_at(s, e, j as int);
        }
        if j < self.sections_by_addr.len() && self.sections_by_addr[j].0 == e.0
            && self.sections_by_addr[j].1 == e.1 {
            self.sections_by_addr.set(j, e);
            proof {
                assert(self.sections_by_addr@ =~= s.take(j as int) + seq![e] + s.skip(j + 1));
            }
        } else {
            self.sections_by_addr.insert(j, e);
            proof {
                assert(self.sections_by_addr@ =~= s.take(j as int) + seq![e] + s.skip(j as int));
            }
        }
        proof {
            assert(self.objects() == old(self).objects());
            let r = self.sections_by_addr@;
            assert forall|i: int| 0 <= i < r.len() implies (#[trigger] r[i]).2 < self.loaded@.len()
                && r[i].0 + r[i].1 <= u64::MAX by {
                if i < j {
                    assert(r[i] == s[i]);
                } else if i > j {
                    assert(r[i] == s[i - 1] || r[i] == s[i]);
                }
            }
            assert(self.section_names() == old(self).section_names());
            assert forall|a: int, b: int| 0 <= a < b < r.len() implies range_before(
                ((#[trigger] r[a]).0, r[a].1),
                ((#[trigger] r[b]).0, r[b].1),
            ) by {
                if a < j && b < j {
                    assert(r[a] == s[a] && r[b] == s[b]);
                } else if a < j {
                    assert(r[a] == s[a]);
                    if b > j {
                        assert(j < s.len());
                        assert(!range_before((s[j as int].0, s[j as int].1), (e.0, e.1)));
                    }
                } else if a == j {
                    assert(r[a] == e);
                    assert(j < s.len());
                    assert(!range_before((s[j as int].0, s[j as int].1), (e.0, e.1)));
                } else {
                    assert(j < s.len());
                }
            }
        }
    }

    /// A loader that loaded nothing.
    pub fn new() -> (r: Self)
        ensures
            r.wf(),
            r.objects().dom().is_empty(),
            r.section_names().dom().is_empty(),
            r.loaded().len() == 0,
            r.by_addr().len() == 0,
    {
        Loader {
            objects: NameTable::new(),
            sections: NameTable::new(),
            sections_by_addr: Vec::new(),
            loaded: Vec::new(),
        }
    }

    /// The section numbered `index`.
    pub fn section(&self, index: usize) -> (r: &PlacedSection)
        requires
            index < self.loaded().len(),
        ensures
            *r == self.loaded()[index as int],
    {
        &self.loaded[index]
    }

    /// The number of the first section of the object named `name`, if it was loaded.
    pub fn get_object(&self, name: &str) -> (r: Option<usize>)
        ensures
            r is Some <==> self.objects().dom().contains(name@),
            r matches Some(v) ==> v == self.objects()[name@],
    {
        self.objects.get(name)
    }

    /// Records the object `name` as loaded, its sections from the next one to be added on.
    pub fn add_object(&mut self, name: String)
        requires
            old(self).wf(),
        ensures
            final(self).wf(),
            final(self).objects() == old(self).objects().insert(name@, old(self).loaded().len() as usize),
            final(self).section_names() == old(self).section_names(),
            final(self).loaded() == old(self).loaded(),
            final(self).by_addr() == old(self).by_addr(),
    {
        let first = self.loaded.len();
        self.objects.insert(name, first);
        proof {
            assert(self.section_names() == old(self).section_names());
            assert(self.sections_by_addr@ == old(self).sections_by_addr@);
            assert(self.loaded@ == old(self).loaded@);
            assert forall|k: Seq<char>| #[trigger] self.objects().dom().contains(k) implies self.objects()[k]
                <= self.loaded@.len() by {
                if k != name@ {
                    assert(old(self).objects().dom().contains(k));
                }
            }
        }
    }

    /// Adds the sections of an object, numbered from the next number on: every one by its
    /// range, in place of a section of the same range, and the global ones by name, in place of
    /// a section of the same name. Returns how many global names were new.
    pub fn add_sections(&mut self, sections: Vec<PlacedSection>) -> (added: usize)
        requires
            old(self).wf(),
            forall|i: int| 0 <= i < sections@.len() ==> (#[trigger] sections@[i]).addr@ + sections@[i].size <= u64::MAX,
        ensures
            final(self).wf(),
            final(self).loaded() == old(self).loaded() + sections@,
            final(self).section_names() == names_after(old(self).section_names(), sections@, old(self).loaded().len() as int),
            final(self).by_addr() == ranges_after(old(self).by_addr(), sections@, old(self).loaded().len() as int),
            added == new_names(old(self).section_names(), sections@, old(self).loaded().len() as int),
            final(self).objects() == old(self).objects(),
    {
        let ghost first = old(self).loaded@.len() as int;
        let ghost all = sections@;
        let n = sections.len();
        let mut rest = sections;
        let mut added: usize = 0;
        let mut i: usize = 0;
        while i < n
            invariant
                self.wf(),
                n == all.len(),
                i <= n,
                rest@ == all.skip(i as int),
                forall|k: int| 0 <= k < all.len() ==> (#[trigger] all[k]).addr@ + all[k].size <= u64::MAX,
                first == old(self).loaded@.len(),
                self.loaded@ == old(self).loaded@ + all.take(i as int),
                self.section_names() == names_after(old(self).section_names(), all.take(i as int), first),
                self.sections_by_addr@ == ranges_after(old(self).by_addr(), all.take(i as int), first),
                added == new_names(old(self).section_names(), all.take(i as int), first),
                added <= i,
                self.objects() == old(self).objects(),
            decreases n - i,
        {
            let section = rest.remove(0);
            proof {
                assert(section == all[i as int]);
                assert(all.take(i + 1).drop_last() =~= all.take(i as int));
                assert(all.skip(i + 1) =~= all.skip(i as int).drop_first());
            }
            let id = self.loaded.len();
            let ghost names_before = self.section_names();
            if section.global {
                let name = section.name.clone();
                let previous = self.sections.insert(name, id);
                if previous.is_none() {
                    added = added + 1;
                }
            }
            let range = (section.addr.to_raw(), section.size, id);
            self.loaded.push(section);
            proof {
                assert(self.loaded@ =~= old(self).loaded@ + all.take(i + 1));
            }
            self.put_range(range);
            i = i + 1;
        }
        proof {
            assert(all.take(n as int) =~= all);
        }
        added
    }

    /// The number of a global section whose name starts with `prefix` and ends with
    /// `suffix`, the first the name table walks to; none when no name fits.
    pub fn get_section(&self, prefix: &str, suffix: &str) -> (r: Option<usize>)
        ensures
            r is None <==> !exists|k: Seq<char>|
                #![trigger self.section_names().dom().contains(k)]
                self.section_names().dom().contains(k) && has_prefix(k, prefix@) && has_suffix(k, suffix@),
            r matches Some(id) ==> exists|k: Seq<char>|
                #![trigger self.section_names().dom().contains(k)]
                self.section_names().dom().contains(k) && has_prefix(k, prefix@) && has_suffix(k, suffix@)
                    && self.section_names()[k] == id,
    {
        let entries = self.sections.entries();
        let mut i: usize = 0;
        while i < entries.len()
            invariant
                i <= entries@.len(),
                forall|j: int|
                    0 <= j < entries@.len() ==> self.section_names().dom().contains((#[trigger] entries@[j]).0@)
                        && self.section_names()[entries@[j].0@] == entries@[j].1,
                forall|k: Seq<char>|
                    #[trigger] self.section_names().dom().contains(k) ==> exists|j: int|
                        0 <= j < entries@.len() && (#[trigger] entries@[j]).0@ == k,
                forall|j: int|
                    0 <= j < i ==> !(has_prefix((#[trigger] entries@[j]).0@, prefix@) && has_suffix(
                        entries@[j].0@,
                        suffix@,
                    )),
            decreases entries@.len() - i,
        {
            let name = entries[i].0.as_str();
            if str_starts_with(name, prefix) && str_ends_with(name, suffix) {
                return Some(entries[i].1);
            }
            i = i + 1;
        }
        proof {
            assert forall|k: Seq<char>|
                self.section_names().dom().contains(k) implies !(has_prefix(k, prefix@) && has_suffix(k, suffix@)) by {
                let j = choose|j: int| 0 <= j < entries@.len() && (#[trigger] entries@[j]).0@ == k;
            }
        }
        None
    }

    /// The number of a global code section whose name starts with `prefix` and ends with
    /// `suffix`, the first the name table walks to; none when no such section fits.
    pub fn get_text_section(&self, prefix: &str, suffix: &str) -> (r: Option<usize>)
        requires
            self.wf(),
        ensures
            r is None <==> !exists|k: Seq<char>|
                #![trigger self.section_names().dom().contains(k)]
                self.section_names().dom().contains(k) && has_prefix(k, prefix@) && has_suffix(k, suffix@)
                    && self.loaded()[self.section_names()[k] as int].kind == SectionKind::Text,
            r matches Some(id) ==> id < self.loaded().len() && self.loaded()[id as int].kind == SectionKind::Text
                && exists|k: Seq<char>|
                #![trigger self.section_names().dom().contains(k)]
                self.section_names().dom().contains(k) && has_prefix(k, prefix@) && has_suffix(k, suffix@)
                    && self.section_names()[k] == id,
    {
        let entries = self.sections.entries();
        let mut i: usize = 0;
        while i < entries.len()
            invariant
                self.wf(),
                i <= entries@.len(),
                forall|j: int|
                    0 <= j < entries@.len() ==> self.section_names().dom().contains((#[trigger] entries@[j]).0@)
                        && self.section_names()[entries@[j].0@] == entries@[j].1,
                forall|k: Seq<char>|
                    #[trigger] self.section_names().dom().contains(k) ==> exists|j: int|
                        0 <= j < entries@.len() && (#[trigger] entries@[j]).0@ == k,
                forall|j: int|
                    0 <= j < i ==> !(has_prefix((#[trigger] entries@[j]).0@, prefix@) && has_suffix(
                        entries@[j].0@,
                        suffix@,
                    ) && self.loaded@[entries@[j].1 as int].kind == SectionKind::Text),
            decreases entries@.len() - i,
        {
            let name = entries[i].0.as_str();
            let id = entries[i].1;
            assert(id < self.loaded@.len());
            let is_text = match self.loaded[id].kind {
                SectionKind::Text => true,
                _ => false,
            };
            if is_text && str_starts_with(name, prefix) && str_ends_with(name, suffix) {
                return Some(id);
            }
            i = i + 1;
        }
        proof {
            assert forall|k: Seq<char>|
                self.section_names().dom().contains(k) implies !(has_prefix(k, prefix@) && has_suffix(k, suffix@)
                    && self.loaded()[self.section_names()[k] as int].kind == SectionKind::Text) by {
                let j = choose|j: int| 0 <= j < entries@.len() && (#[trigger] entries@[j]).0@ == k;
            }
        }
        None
    }

    /// The number of the section with the least range, by address then size, that holds
    /// `addr`.
    pub fn get_section_for_addr(&self, addr: VirtualAddress) -> (r: Option<usize>)
        requires
            self.wf(),
        ensures
            r == match first_holding(self.by_addr(), addr@) {
                Some(i) => Some(self.by_addr()[i].2),
                None => None::<usize>,
            },
    {
        let x = addr.to_raw();
        let ghost s = self.sections_by_addr@;
        proof {
            assert(s.skip(0) =~= s);
        }
        let mut i: usize = 0;
        while i < self.sections_by_addr.len()
            invariant
                self.wf(),
                s == self.sections_by_addr@,
                i <= s.len(),
                x == addr@,
                first_holding(s, x) == match first_holding(s.skip(i as int), x) {
                    Some(k) => Some(k + i),
                    None => None::<int>,
                },
            decreases s.len() - i,
        {
            let (start, size, id) = self.sections_by_addr[i];
            proof {
                assert(s.skip(i as int)[0] == s[i as int]);
                assert(s.skip(i as int).drop_first() =~= s.skip(i + 1));
            }
            if start <= x && x < VirtualAddress::new(start + size as u64).to_raw() {
                return Some(id);
            }
            i = i + 1;
        }
        None
    }

    /// Where the section named `name` comes from: the global section of that name if there is
    /// one; else the first crate the name mentions whose object is not loaded, to be loaded
    /// and looked in; else nowhere.
    pub fn lookup_section(&self, name: &str) -> (r: SectionLookup)
        ensures
            self.section_names().dom().contains(name@) ==> r == SectionLookup::Found(
                self.section_names()[name@],
            ),
            !self.section_names().dom().contains(name@) ==> {
                let crates = range_names(name@, dedup(name_ranges_from(name@, 0)));
                match first_unloaded(crates, self.objects()) {
                    Some(i) => r matches SectionLookup::Load(o) && o@ == crates[i],
                    None => r is Missing,
                }
            },
    {
        match self.sections.get(name) {
            Some(id) => {
                return SectionLookup::Found(id);
            },
            None => {},
        }
        let crates = crate_names_in_symbol(name);
        let ghost names = range_names(name@, dedup(name_ranges_from(name@, 0)));
        proof {
            assert(names.skip(0) =~= names);
        }
        let mut i: usize = 0;
        while i < crates.len()
            invariant
                crates@.map_values(|t: &str| t@) == names,
                names == range_names(name@, dedup(name_ranges_from(name@, 0))),
                !self.section_names().dom().contains(name@),
                i <= crates@.len(),
                first_unloaded(names, self.objects()) == match first_unloaded(names.skip(i as int), self.objects()) {
                    Some(k) => Some(k + i),
                    None => None::<int>,
                },
            decreases crates@.len() - i,
        {
            proof {
                assert(names.skip(i as int)[0] == names[i as int]);
                assert(names.skip(i as int).drop_first() =~= names.skip(i + 1));
            }
            if self.objects.get(crates[i]).is_none() {
                let mut object = String::new();
                object.append(crates[i]);
                proof {
                    assert(names[i as int] == crates@[i as int]@);
                    assert(object@ =~= crates@[i as int]@);
                }
                return SectionLookup::Load(object);
            }
            i = i + 1;
        }
        SectionLookup::Missing
    }
}

/// `s` padded with spaces on the left to `width` characters.
pub open spec fn pad_left(s: Seq<char>, width: nat) -> Seq<char> {
    if s.len() >= width {
        s
    } else {
        Seq::new((width - s.len()) as nat, |_i: int| ' ') + s
    }
}

/// The lowercase hexadecimal digits of `v`, most significant first, without leading zeros.
pub open spec fn hex(v: nat) -> Seq<char>
    decreases v,
{
    if v < 16 {
        seq![hex_char(v)]
    } else {
        hex(v / 16) + seq![hex_char(v % 16)]
    }
}

/// The longest start of `s` whose UTF-8 takes at most `budget` bytes: all of `s` when it takes
/// no more, and otherwise the part before the byte at `budget`, when a character starts there.
pub open spec fn prefix_within_bytes(s: Seq<char>, budget: int) -> Seq<char>
    decreases s.len(),
{
    if s.len() == 0 || char_utf8_len(s[0]) > budget {
        Seq::empty()
    } else {
        seq![s[0]] + prefix_within_bytes(s.drop_first(), budget - char_utf8_len(s[0]))
    }
}

/// A section's line in the report of its object: its index, its address, its kind and the
/// first 50 bytes of its name.
pub open spec fn section_entry(section: PlacedSection) -> Seq<char> {
    "\n    "@ + pad_left(decimal(section.index as nat), 4) + " | 0x"@ + hex(section.addr@ as nat) + " | "@
        + pad_left(kind_name(section.kind), 10) + " | "@ + prefix_within_bytes(section.name@, 50)
}

/// The lines of `sections`, in order.
pub open spec fn section_entries(sections: Seq<PlacedSection>) -> Seq<char>
    decreases sections.len(),
{
    if sections.len() == 0 {
        Seq::empty()
    } else {
        section_entries(sections.drop_last()) + section_entry(sections.last())
    }
}

/// An object's part of the report: its name, then the line of each of its sections, or just
/// how many there are when there are more than 20.
pub open spec fn object_entry(name: Seq<char>, sections: Seq<PlacedSection>) -> Seq<char> {
    "    "@ + name + ":"@ + (if sections.len() > 20 {
        "\n        "@ + decimal(sections.len()) + " sections"@
    } else {
        section_entries(sections)
    }) + "\n"@
}

/// The report of the loaded objects, each with its sections, in the order given.
pub open spec fn objects_entries(objects: Seq<(Seq<char>, Seq<PlacedSection>)>) -> Seq<char>
    decreases objects.len(),
{
    if objects.len() == 0 {
        Seq::empty()
    } else {
        objects_entries(objects.drop_last()) + object_entry(objects.last().0, objects.last().1)
    }
}

/// Appends the lowercase hexadecimal digits of `v`.
fn append_hex(out: &mut String, v: u64)
    ensures
        final(out)@ == old(out)@ + hex(v as nat),
    decreases v,
{
    if v >= 16 {
        append_hex(out, v / 16);
    }
    out.append(hex_digit_str(v % 16));
    proof {
        assert(out@ =~= old(out)@ + hex(v as nat));
    }
}

/// Appends `s` padded with spaces on the left to `width` characters.
fn append_padded_left(out: &mut String, s: &str, width: usize)
    ensures
        final(out)@ == old(out)@ + pad_left(s@, width as nat),
{
    proof {
        reveal_strlit(" ");
    }
    let n = s.unicode_len();
    let mut k: usize = n;
    while k < width
        invariant
            n == s@.len(),
            n <= k <= width || k == n,
            out@ == old(out)@ + Seq::new((k - n) as nat, |_i: int| ' '),
        decreases width - k,
    {
        let ghost before = out@;
        out.append(" ");
        proof {
            reveal_strlit(" ");
            assert(" "@ =~= seq![' ']);
            assert(out@ == before + seq![' ']);
            assert(Seq::new((k + 1 - n) as nat, |_i: int| ' ') =~= Seq::new((k - n) as nat, |_i: int| ' ')
                + seq![' ']);
            assert(out@ =~= old(out)@ + Seq::new((k + 1 - n) as nat, |_i: int| ' '));
        }
        k = k + 1;
    }
    out.append(s);
    proof {
        if n >= width {
            assert(out@ =~= old(out)@ + s@);
        } else {
            assert(out@ =~= old(out)@ + (Seq::new((width - n) as nat, |_i: int| ' ') + s@));
        }
    }
}

/// Appends the longest start of `s` whose UTF-8 takes at most `budget` bytes.
fn append_prefix_within_bytes(out: &mut String, s: &str, budget: usize)
    ensures
        final(out)@ == old(out)@ + prefix_within_bytes(s@, budget as int),
{
    let n = s.unicode_len();
    let mut j: usize = 0;
    let mut used: usize = 0;
    proof {
        assert(s@.skip(0) =~= s@);
        assert(s@.subrange(0, 0) + prefix_within_bytes(s@, budget as int) =~= prefix_within_bytes(
            s@,
            budget as int,
        ));
    }
    while j < n && utf8_len(s.get_char(j)) <= budget - used
        invariant
            n == s@.len(),
            j <= n,
            used <= budget,
            prefix_within_bytes(s@, budget as int) == s@.subrange(0, j as int) + prefix_within_bytes(
                s@.skip(j as int),
                budget - used,
            ),
        decreases n - j,
    {
        let l = utf8_len(s.get_char(j));
        proof {
            let t = s@.skip(j as int);
            assert(t[0] == s@[j as int]);
            assert(t.drop_first() =~= s@.skip(j + 1));
            assert(s@.subrange(0, j as int) + seq![s@[j as int]] =~= s@.subrange(0, j + 1));
        }
        used = used + l;
        j = j + 1;
    }
    proof {
        let t = s@.skip(j as int);
        if j < n {
            assert(t[0] == s@[j as int]);
        }
        assert(prefix_within_bytes(t, budget - used) =~= Seq::<char>::empty());
    }
    let head = s.substring_char(0, j);
    out.append(head);
    proof {
        assert(out@ =~= old(out)@ + prefix_within_bytes(s@, budget as int));
    }
}

/// Appends the line of `section` in its object's report.
fn append_section_entry(out: &mut String, section: &PlacedSection)
    ensures
        final(out)@ == old(out)@ + section_entry(*section),
{
    proof {
        reveal_strlit("\n    ");
        reveal_strlit(" | 0x");
        reveal_strlit(" | ");
    }
    out.append("\n    ");
    let mut index = String::new();
    append_decimal(&mut index, section.index as u64);
    append_padded_left(out, index.as_str(), 4);
    out.append(" | 0x");
    append_hex(out, section.addr.to_raw());
    out.append(" | ");
    append_padded_left(out, section.kind.name(), 10);
    out.append(" | ");
    append_prefix_within_bytes(out, section.name.as_str(), 50);
    proof {
        assert(out@ =~= old(out)@ + section_entry(*section));
    }
}

/// Appends the part of the report for the object `name` whose sections are those of
/// `sections` from `from` up to `to`.
fn append_object_entry(out: &mut String, name: &str, sections: &[PlacedSection], from: usize, to: usize)
    requires
        from <= to <= sections@.len(),
    ensures
        final(out)@ == old(out)@ + object_entry(name@, sections@.subrange(from as int, to as int)),
{
    proof {
        reveal_strlit("    ");
        reveal_strlit(":");
        reveal_strlit("\n        ");
        reveal_strlit(" sections");
        reveal_strlit("\n");
    }
    let ghost part = sections@.subrange(from as int, to as int);
    out.append("    ");
    out.append(name);
    out.append(":");
    let ghost head = out@;
    if to - from > 20 {
        out.append("\n        ");
        append_decimal(out, (to - from) as u64);
        out.append(" sections");
    } else {
        let mut i: usize = from;
        while i < to
            invariant
                from <= i <= to <= sections@.len(),
                part == sections@.subrange(from as int, to as int),
                out@ == head + section_entries(part.take(i - from)),
            decreases to - i,
        {
            append_section_entry(out, &sections[i]);
            proof {
                assert(part.take(i + 1 - from).drop_last() =~= part.take(i - from));
                assert(part.take(i + 1 - from).last() == sections@[i as int]);
            }
            i = i + 1;
        }
        proof {
            assert(part.take(i - from) =~= part);
        }
    }
    out.append("\n");
    proof {
        assert(out@ =~= old(out)@ + object_entry(name@, part));
    }
}

/// Whether the sections of the object whose sections start at number `first` end at `end`:
/// at the first section of the next object to start after it, or at `total` when none does.
pub open spec fn is_object_end(objects: Map<Seq<char>, usize>, first: int, total: int, end: int) -> bool {
    &&& first <= end <= total
    &&& end == total || (first < end && exists|k: Seq<char>|
        #[trigger] objects.dom().contains(k) && objects[k] == end)
    &&& forall|k: Seq<char>| #[trigger] objects.dom().contains(k) && first < objects[k] ==> end <= objects[k]
}

/// `walk` holds each object of `objects` once: its name, the number of its first section,
/// and where its sections end among `total` sections.
pub open spec fn is_object_walk(
    walk: Seq<(Seq<char>, usize, int)>,
    objects: Map<Seq<char>, usize>,
    total: int,
) -> bool {
    &&& forall|i: int|
        0 <= i < walk.len() ==> objects.dom().contains((#[trigger] walk[i]).0) && objects[walk[i].0]
            == walk[i].1 && is_object_end(objects, walk[i].1 as int, total, walk[i].2)
    &&& forall|k: Seq<char>| #[trigger] objects.dom().contains(k) ==> exists|i: int| 0 <= i < walk.len() && (#[trigger] walk[i]).0 == k
    &&& forall|i: int, j: int| 0 <= i < j < walk.len() ==> (#[trigger] walk[i]).0 != (#[trigger] walk[j]).0
}

/// Each object of `walk` with its sections among `loaded`.
pub open spec fn walk_sections(walk: Seq<(Seq<char>, usize, int)>, loaded: Seq<PlacedSection>) -> Seq<
    (Seq<char>, Seq<PlacedSection>),
> {
    walk.map_values(|e: (Seq<char>, usize, int)| (e.0, loaded.subrange(e.1 as int, e.2)))
}

impl Loader {
    /// The report of the loaded objects, in the order the object table walks them, each with
    /// its sections: those from its first one up to the first one of the next object loaded.
    pub fn dump_info(&self) -> (r: String)
        requires
            self.wf(),
        ensures
            exists|walk: Seq<(Seq<char>, usize, int)>|
                is_object_walk(walk, self.objects(), self.loaded().len() as int) && r@
                    == "--- OBJECTS ---\n"@ + objects_entries(walk_sections(walk, self.loaded())),
    {
        proof {
            reveal_strlit("--- OBJECTS ---\n");
        }
        let entries = self.objects.entries();
        let total = self.loaded.len();
        let ghost objects = self.objects();
        let ghost loaded = self.loaded@;
        let mut out = String::new();
        out.append("--- OBJECTS ---\n");
        let ghost mut walk: Seq<(Seq<char>, usize, int)> = Seq::empty();
        let mut i: usize = 0;
        while i < entries.len()
            invariant
                self.wf(),
                objects == self.objects(),
                loaded == self.loaded@,
                total == loaded.len(),
                i <= entries@.len(),
                walk.len() == i,
                forall|e: int|
                    0 <= e < entries@.len() ==> objects.dom().contains((#[trigger] entries@[e]).0@)
                        && objects[entries@[e].0@] == entries@[e].1,
                forall|k: Seq<char>|
                    #[trigger] objects.dom().contains(k) ==> exists|e: int|
                        0 <= e < entries@.len() && (#[trigger] entries@[e]).0@ == k,
                forall|a: int| 0 <= a < i ==> (#[trigger] walk[a]).0 == entries@[a].0@ && walk[a].1
                    == entries@[a].1 && is_object_end(objects, walk[a].1 as int, total as int, walk[a].2),
                out@ == "--- OBJECTS ---\n"@ + objects_entries(walk_sections(walk, loaded)),
            decreases entries@.len() - i,
        {
            let first = entries[i].1;
            proof {
                assert(objects.dom().contains(entries@[i as int].0@));
            }
            let mut end = total;
            let mut j: usize = 0;
            while j < entries.len()
                invariant
                    first <= end <= total,
                    end == total || (first < end && exists|e: int|
                        0 <= e < j && #[trigger] entries@[e].1 == end),
                    forall|e: int| 0 <= e < j && first < (#[trigger] entries@[e]).1 ==> end <= entries@[e].1,
                    j <= entries@.len(),
                decreases entries@.len() - j,
            {
                let f = entries[j].1;
                if first < f && f < end {
                    end = f;
                }
                j = j + 1;
            }
            proof {
                assert forall|k: Seq<char>| #[trigger] objects.dom().contains(k) && first < objects[k]
                    implies end <= objects[k] by {
                    let e = choose|e: int| 0 <= e < entries@.len() && (#[trigger] entries@[e]).0@ == k;
                    assert(entries@[e].1 == objects[k]);
                }
                if end != total {
                    let e = choose|e: int| 0 <= e < j && #[trigger] entries@[e].1 == end;
                    assert(objects.dom().contains(entries@[e].0@));
                }
                assert(is_object_end(objects, first as int, total as int, end as int));
            }
            append_object_entry(&mut out, entries[i].0.as_str(), self.loaded.as_slice(), first, end);
            let ghost before = walk;
            proof {
                walk = walk.push((entries@[i as int].0@, first, end as int));
                assert(walk_sections(walk, loaded).drop_last() =~= walk_sections(before, loaded));
                assert(walk_sections(walk, loaded).last() == (entries@[i as int].0@, loaded.subrange(
                    first as int,
                    end as int,
                )));
            }
            i = i + 1;
        }
        proof {
            assert forall|k: Seq<char>| #[trigger] objects.dom().contains(k) implies exists|a: int|
                0 <= a < walk.len() && (#[trigger] walk[a]).0 == k by {
                let e = choose|e: int| 0 <= e < entries@.len() && (#[trigger] entries@[e]).0@ == k;
                assert(walk[e].0 == k);
            }
            assert forall|a: int, b: int| 0 <= a < b < walk.len() implies (#[trigger] walk[a]).0
                != (#[trigger] walk[b]).0 by {
                assert(entries@[a].0@ != entries@[b].0@);
            }
            assert(is_object_walk(walk, objects, total as int));
            assert(is_object_walk(walk, self.objects(), self.loaded().len() as int) && out@
                == "--- OBJECTS ---\n"@ + objects_entries(walk_sections(walk, self.loaded())));
        }
        out
    }
}

} // verus!
