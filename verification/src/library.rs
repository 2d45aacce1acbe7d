//! Libraries, and where they are mapped in an address space.

use crate::intern::{extends, interned};
use crate::json::{json_optional_text, json_text, text_or_null, Json, JsonView, ObjectBuilder};
use crate::symbol_table::{SymbolTable, SymbolView};
use crate::text::{clone_optional_text, is_same_optional_text, is_same_text, optional_text};
use std::ops::Range;
use std::sync::Arc;
use vstd::prelude::*;

verus! {

/// A library ("binary" / "module" / "DSO") of a profile, wherever it is loaded.
#[derive(Debug)]
pub struct Lib {
    pub name: String,
    pub debug_name: String,
    pub path: String,
    pub debug_path: String,
    /// The debug ID, in the form that Breakpad writes.
    pub debug_id: String,
    pub code_id: Option<String>,
    pub arch: Option<String>,
    /// The symbols of the library, where they are known in advance.
    pub symbol_table: Option<Arc<SymbolTable>>,
}

/// What a [`Lib`] says.
pub struct LibView {
    pub name: Seq<char>,
    pub debug_name: Seq<char>,
    pub path: Seq<char>,
    pub debug_path: Seq<char>,
    pub debug_id: Seq<char>,
    pub code_id: Option<Seq<char>>,
    pub arch: Option<Seq<char>>,
    pub symbol_table: Option<Seq<SymbolView>>,
}

/// The symbols of a table that may be missing.
pub open spec fn optional_symbols(table: Option<Arc<SymbolTable>>) -> Option<Seq<SymbolView>> {
    match table {
        Some(table) => Some((*table)@),
        None => None,
    }
}

impl View for Lib {
    type V = LibView;

    open spec fn view(&self) -> LibView {
        LibView {
            name: self.name@,
            debug_name: self.debug_name@,
            path: self.path@,
            debug_path: self.debug_path@,
            debug_id: self.debug_id@,
            code_id: optional_text(self.code_id),
            arch: optional_text(self.arch),
            symbol_table: optional_symbols(self.symbol_table),
        }
    }
}

impl Lib {
    /// Two libraries are the same in all respects.
    pub fn is_same(&self, other: &Lib) -> (r: bool)
        ensures
            r == (self@ == other@),
    {
        if !(is_same_text(self.name.as_str(), other.name.as_str()) && is_same_text(
            self.debug_name.as_str(),
            other.debug_name.as_str(),
        ) && is_same_text(self.path.as_str(), other.path.as_str()) && is_same_text(
            self.debug_path.as_str(),
            other.debug_path.as_str(),
        ) && is_same_text(self.debug_id.as_str(), other.debug_id.as_str())
            && is_same_optional_text(&self.code_id, &other.code_id) && is_same_optional_text(
            &self.arch,
            &other.arch,
        )) {
            return false;
        }
        match (&self.symbol_table, &other.symbol_table) {
            (Some(a), Some(b)) => a.is_same(b),
            (None, None) => true,
            _ => false,
        }
    }

    /// A copy that shares the symbol table.
    pub fn duplicate(&self) -> (lib: Lib)
        ensures
            lib@ == self@,
    {
        Lib {
            name: self.name.clone(),
            debug_name: self.debug_name.clone(),
            path: self.path.clone(),
            debug_path: self.debug_path.clone(),
            debug_id: self.debug_id.clone(),
            code_id: clone_optional_text(&self.code_id),
            arch: clone_optional_text(&self.arch),
            symbol_table: match &self.symbol_table {
                Some(table) => Some(table.clone()),
                None => None,
            },
        }
    }
}

/// A library in the profile JSON.
pub open spec fn lib_json(lib: LibView) -> JsonView {
    JsonView::Object(
        seq![
            ("name"@, JsonView::Text(lib.name)),
            ("path"@, JsonView::Text(lib.path)),
            ("debugName"@, JsonView::Text(lib.debug_name)),
            ("debugPath"@, JsonView::Text(lib.debug_path)),
            ("breakpadId"@, JsonView::Text(lib.debug_id)),
            ("codeId"@, json_optional_text(lib.code_id)),
            ("arch"@, json_optional_text(lib.arch)),
        ],
    )
}

impl Lib {
    /// The library in the profile JSON.
    pub fn to_json(&self) -> (json: Json)
        ensures
            json@ == lib_json(self@),
    {
        let mut object: ObjectBuilder = ObjectBuilder::new();
        object.entry("name", json_text(self.name.as_str()));
        object.entry("path", json_text(self.path.as_str()));
        object.entry("debugName", json_text(self.debug_name.as_str()));
        object.entry("debugPath", json_text(self.debug_path.as_str()));
        object.entry("breakpadId", json_text(self.debug_id.as_str()));
        object.entry("codeId", text_or_null(&self.code_id));
        object.entry("arch", text_or_null(&self.arch));
        assert(object@ =~= lib_json(self@)->Object_0);
        object.build()
    }
}

/// A library that is loaded into a process or into the kernel.
#[derive(Debug)]
pub struct LibraryInfo {
    /// The address that corresponds to the relative address zero.
    pub base_avma: u64,
    /// The addresses that the library covers.
    pub avma_range: Range<u64>,
    pub lib: Lib,
}

/// The libraries that the addresses in a profile lie in, without repetition.
#[derive(Debug)]
pub struct GlobalLibTable {
    libs: Vec<Lib>,  // append-only for stable indexes
}

impl View for GlobalLibTable {
    type V = Seq<LibView>;

    closed spec fn view(&self) -> Seq<LibView> {
        self.libs@.map_values(|lib: Lib| lib@)
    }
}

impl GlobalLibTable {
    /// The libraries are in memory, so their indexes are machine integers.
    pub proof fn lemma_fits(&self)
        ensures
            self@.len() <= usize::MAX,
    {
        assert(self@.len() == self.libs.len());
    }

    pub fn new() -> (table: Self)
        ensures
            table@ == Seq::<LibView>::empty(),
    {
        let table: GlobalLibTable = GlobalLibTable { libs: Vec::new() };
        assert(table@ =~= Seq::<LibView>::empty());
        table
    }

    pub fn len(&self) -> (len: usize)
        ensures
            len == self@.len(),
    {
        self.libs.len()
    }

    /// The library at the given index.
    pub fn get(&self, index: usize) -> (lib: &Lib)
        requires
            index < self@.len(),
        ensures
            lib@ == self@[index as int],
    {
        &self.libs[index]
    }

    /// The index of a library, which is added if it is not in the table.
    pub fn index_for_lib(&mut self, lib: &Lib) -> (index: usize)
        requires
            old(self)@.no_duplicates(),
        ensures
            final(self)@.no_duplicates(),
            final(self)@ == interned(old(self)@, lib@),
            index < final(self)@.len(),
            final(self)@[index as int] == lib@,
    {
        let mut i: usize = 0;
        while i < self.libs.len()
            invariant
                *self == *old(self),
                self@.no_duplicates(),
                i <= self.libs@.len(),
                forall|j: int| 0 <= j < i ==> #[trigger] self@[j] != lib@,
            decreases self.libs@.len() - i,
        {
            assert(self@[i as int] == self.libs@[i as int]@);
            if self.libs[i].is_same(lib) {
                return i;
            }
            i = i + 1;
        }
        assert(!self@.contains(lib@));
        self.libs.push(lib.duplicate());
        assert(self@ =~= old(self)@.push(lib@));
        i
    }
}

/// The addresses from `start` up to `end` belong to the library with the index `lib`.
#[derive(Debug, Clone, Copy, PartialEq, Eq, Structural)]
pub struct LibRange {
    pub start: u64,
    pub end: u64,
    /// The address that corresponds to the relative address zero.
    pub base: u64,
    pub lib: usize,
}

/// What [`LibsWithRanges`] says: the ranges in use, and all libraries that were ever added.
#[verifier::ext_equal]
pub struct LibsView {
    pub ranges: Seq<LibRange>,
    pub libs: Seq<LibView>,
}

/// The ranges are sorted by the addresses at which they start.
pub open spec fn starts_ascend(ranges: Seq<LibRange>) -> bool {
    forall|i: int, j: int|
        0 <= i < j < ranges.len() ==> (#[trigger] ranges[i]).start <= (#[trigger] ranges[j]).start
}

/// `address` is one of the addresses of `range`.
pub open spec fn covers(range: LibRange, address: u64) -> bool {
    range.start <= address < range.end
}

/// The place behind the last range that starts at or before `start`.
pub open spec fn place_for(ranges: Seq<LibRange>, start: u64) -> int
    decreases ranges.len(),
{
    if ranges.len() == 0 || ranges.last().start <= start {
        ranges.len() as int
    } else {
        place_for(ranges.drop_last(), start)
    }
}

/// `ranges` with `range` at its place.
pub open spec fn with_range(ranges: Seq<LibRange>, range: LibRange) -> Seq<LibRange> {
    ranges.insert(place_for(ranges, range.start), range)
}

/// `ranges` without those of the given base address.
pub open spec fn without_base(ranges: Seq<LibRange>, base: u64) -> Seq<LibRange> {
    ranges.filter(|r: LibRange| r.base != base)
}

/// The range that `address` lies in. Where ranges overlap, it is the one that starts last, and of
/// those that start at the same address the one that was added last.
pub open spec fn range_at(ranges: Seq<LibRange>, address: u64) -> Option<LibRange>
    decreases ranges.len(),
{
    if ranges.len() == 0 {
        None
    } else if covers(ranges.last(), address) {
        Some(ranges.last())
    } else {
        range_at(ranges.drop_last(), address)
    }
}

/// The distance of `address` from `base`, in 32 bits.
pub open spec fn relative_address(address: u64, base: u64) -> u32 {
    ((address - base) % 0x1_0000_0000) as u32
}

impl LibsView {
    /// No ranges and no libraries.
    pub open spec fn empty() -> LibsView {
        LibsView { ranges: Seq::empty(), libs: Seq::empty() }
    }

    /// The ranges are sorted, and their libraries exist.
    pub open spec fn valid(self) -> bool {
        &&& starts_ascend(self.ranges)
        &&& forall|i: int|
            0 <= i < self.ranges.len() ==> (#[trigger] self.ranges[i]).lib < self.libs.len()
    }

    /// The relative address, and the library that it is relative to, of an address.
    pub open spec fn resolve(self, address: u64) -> Option<(u32, LibView)> {
        match range_at(self.ranges, address) {
            Some(range) => Some(
                (relative_address(address, range.base), self.libs[range.lib as int]),
            ),
            None => None,
        }
    }

    /// `library` is loaded: it has been added, and not unloaded since.
    pub open spec fn holds(self, library: LibraryInfo) -> bool {
        exists|i: int|
            0 <= i < self.ranges.len() && self.is_range_of(#[trigger] self.ranges[i], library)
    }

    /// `range` is where `library` is loaded.
    pub open spec fn is_range_of(self, range: LibRange, library: LibraryInfo) -> bool {
        &&& range.start == library.avma_range.start
        &&& range.end == library.avma_range.end
        &&& range.base == library.base_avma
        &&& self.libs[range.lib as int] == library.lib@
    }

    /// No loaded library covers `address`, but for `library`.
    pub open spec fn covered_by_none_but(self, library: LibraryInfo, address: u64) -> bool {
        forall|i: int|
            0 <= i < self.ranges.len() && covers(#[trigger] self.ranges[i], address)
                ==> self.is_range_of(self.ranges[i], library)
    }

    /// No loaded library covers `address`.
    pub open spec fn leaves_free(self, address: u64) -> bool {
        forall|i: int|
            0 <= i < self.ranges.len() ==> !covers(#[trigger] self.ranges[i], address)
    }

    /// What there is after `library` has been added.
    pub open spec fn added(self, library: LibraryInfo) -> LibsView {
        LibsView {
            ranges: with_range(self.ranges, added_range(self, library)),
            libs: self.libs.push(library.lib@),
        }
    }

    /// What there is after the library at `base` has been unloaded.
    pub open spec fn unloaded(self, base: u64) -> LibsView {
        LibsView { ranges: without_base(self.ranges, base), ..self }
    }
}

/// The libraries of an address space, with the ranges that they are mapped to.
#[derive(Debug)]
pub struct LibsWithRanges {
    ranges: Vec<LibRange>,
    libs: Vec<Lib>,
    /// For each of `libs`, its index in the global table once it has one.
    used: Vec<Option<usize>>,
}

impl View for LibsWithRanges {
    type V = LibsView;

    closed spec fn view(&self) -> LibsView {
        LibsView { ranges: self.ranges@, libs: self.libs@.map_values(|lib: Lib| lib@) }
    }
}

impl LibsWithRanges {
    /// The table is in order, and what it knows of the global table is true.
    pub closed spec fn wf(self, globals: Seq<LibView>) -> bool {
        &&& starts_ascend(self.ranges@)
        &&& forall|i: int|
            0 <= i < self.ranges@.len() ==> (#[trigger] self.ranges@[i]).lib < self.libs@.len()
        &&& self.used@.len() == self.libs@.len()
        &&& forall|i: int|
            0 <= i < self.used@.len() ==> (#[trigger] self.used@[i] matches Some(index) ==> index
                < globals.len() && globals[index as int] == self.libs@[i]@)
    }

    /// The facts on the ranges that others may use.
    pub proof fn lemma_wf(self, globals: Seq<LibView>)
        requires
            self.wf(globals),
        ensures
            self@.valid(),
    {
    }

    /// Adding to the global table does not harm.
    pub proof fn lemma_extended(self, globals: Seq<LibView>, longer: Seq<LibView>)
        requires
            self.wf(globals),
            extends(longer, globals),
        ensures
            self.wf(longer),
    {
    }

    pub fn new() -> (libs: Self)
        ensures
            forall|globals: Seq<LibView>| #[trigger] libs.wf(globals),
            libs@ == LibsView::empty(),
    {
        let libs: LibsWithRanges = LibsWithRanges {
            ranges: Vec::new(),
            libs: Vec::new(),
            used: Vec::new(),
        };
        assert(libs@.libs =~= Seq::<LibView>::empty());
        libs
    }

    /// Map a library.
    pub fn add_lib(&mut self, library: LibraryInfo)
        ensures
            final(self)@ == old(self)@.added(library),
            forall|globals: Seq<LibView>| #[trigger]
                old(self).wf(globals) ==> final(self).wf(globals),
    {
        let LibraryInfo { base_avma, avma_range, lib } = library;
        let start: u64 = avma_range.start;
        let range: LibRange = LibRange {
            start,
            end: avma_range.end,
            base: base_avma,
            lib: self.libs.len(),
        };
        let mut place: usize = self.ranges.len();
        assert(self.ranges@.take(place as int) =~= self.ranges@);
        while place > 0 && self.ranges[place - 1].start > start
            invariant
                *self == *old(self),
                place <= self.ranges@.len(),
                place_for(self.ranges@, start) == place_for(
                    self.ranges@.take(place as int),
                    start,
                ),
            decreases place,
        {
            assert(self.ranges@.take(place as int).drop_last() =~= self.ranges@.take(place - 1));
            place = place - 1;
        }
        proof {
            lemma_place_for(self.ranges@, start);
        }
        self.ranges.insert(place, range);
        self.libs.push(lib);
        self.used.push(None);
        assert(self@.libs =~= old(self)@.libs.push(lib@));
        assert(self@.ranges =~= with_range(old(self)@.ranges, range));
    }

    /// Unmap all libraries of the given base address.
    pub fn unload_lib(&mut self, base_address: u64)
        ensures
            final(self)@ == old(self)@.unloaded(base_address),
            forall|globals: Seq<LibView>| #[trigger]
                old(self).wf(globals) ==> final(self).wf(globals),
    {
        let ghost other = |r: LibRange| r.base != base_address;
        let ranges: Vec<LibRange> = ranges_without_base(&self.ranges, base_address);
        proof {
            lemma_filter(self.ranges@, other);
        }
        self.ranges = ranges;
    }

    /// The relative address and the global index of the library that an address lies in.
    pub fn convert_address(&mut self, globals: &mut GlobalLibTable, address: u64) -> (r: Option<
        (u32, usize),
    >)
        requires
            old(self).wf(old(globals)@),
            old(globals)@.no_duplicates(),
        ensures
            final(self)@ == old(self)@,
            final(self).wf(final(globals)@),
            final(globals)@.no_duplicates(),
            match old(self)@.resolve(address) {
                Some((relative, lib)) => {
                    &&& final(globals)@ == interned(old(globals)@, lib)
                    &&& r matches Some((found, index)) && found == relative && index
                        < final(globals)@.len() && final(globals)@[index as int] == lib
                },
                None => r is None && final(globals)@ == old(globals)@,
            },
    {
        // The ranges below `low` start at or before the address, those from `high` on after it.
        let mut low: usize = 0;
        let mut high: usize = self.ranges.len();
        while low < high
            invariant
                *self == *old(self),
                *globals == *old(globals),
                low <= high <= self.ranges@.len(),
                starts_ascend(self.ranges@),
                forall|i: int| 0 <= i < low ==> (#[trigger] self.ranges@[i]).start <= address,
                forall|i: int|
                    high <= i < self.ranges@.len() ==> (#[trigger] self.ranges@[i]).start
                        > address,
            decreases high - low,
        {
            let mid: usize = low + (high - low) / 2;
            if self.ranges[mid].start <= address {
                low = mid + 1;
            } else {
                high = mid;
            }
        }
        // The ranges from `count` on do not cover the address.
        let mut count: usize = low;
        while count > 0 && self.ranges[count - 1].end <= address
            invariant
                *self == *old(self),
                *globals == *old(globals),
                count <= self.ranges@.len(),
                forall|i: int| 0 <= i < count ==> (#[trigger] self.ranges@[i]).start <= address,
                forall|i: int|
                    count <= i < self.ranges@.len() ==> !covers(
                        #[trigger] self.ranges@[i],
                        address,
                    ),
            decreases count,
        {
            count = count - 1;
        }
        proof {
            lemma_last_cover(self.ranges@, address, count as int);
        }
        if count == 0 {
            return None;
        }
        let range: LibRange = self.ranges[count - 1];
        let distance: u64 = address.wrapping_sub(range.base);
        let relative: u32 = distance as u32;
        assert(distance as u32 == distance % 0x1_0000_0000) by (bit_vector);
        assert(relative == relative_address(address, range.base));
        let index: usize = match self.used[range.lib] {
            Some(index) => {
                proof {
                    let lib = self.libs@[range.lib as int]@;
                    assert(globals@[index as int] == lib);
                    assert(globals@.contains(lib));
                }
                index
            },
            None => {
                let index: usize = globals.index_for_lib(&self.libs[range.lib]);
                self.used.set(range.lib, Some(index));
                index
            },
        };
        Some((relative, index))
    }
}

/// The ranges of other base addresses than the given one.
fn ranges_without_base(ranges: &Vec<LibRange>, base: u64) -> (kept: Vec<LibRange>)
    ensures
        kept@ == without_base(ranges@, base),
{
    let ghost other = |r: LibRange| r.base != base;
    let mut kept: Vec<LibRange> = Vec::new();
    let mut i: usize = 0;
    reveal(Seq::filter);
    while i < ranges.len()
        invariant
            i <= ranges@.len(),
            other == (|r: LibRange| r.base != base),
            kept@ == ranges@.take(i as int).filter(other),
        decreases ranges@.len() - i,
    {
        reveal(Seq::filter);
        assert(ranges@.take(i + 1).drop_last() =~= ranges@.take(i as int));
        let range: LibRange = ranges[i];
        if range.base != base {
            kept.push(range);
        }
        i = i + 1;
    }
    assert(ranges@.take(i as int) =~= ranges@);
    kept
}

/// The ranges before a place start at or before the address that it is for, the others behind it.
proof fn lemma_place_for(ranges: Seq<LibRange>, start: u64)
    ensures
        0 <= place_for(ranges, start) <= ranges.len(),
        starts_ascend(ranges) ==> forall|i: int|
            0 <= i < place_for(ranges, start) ==> (#[trigger] ranges[i]).start <= start,
        forall|i: int|
            place_for(ranges, start) <= i < ranges.len() ==> (#[trigger] ranges[i]).start > start,
    decreases ranges.len(),
{
    if ranges.len() > 0 {
        let shorter = ranges.drop_last();
        let last = ranges[ranges.len() - 1];
        let n = place_for(ranges, start);
        if last.start > start {
            lemma_place_for(shorter, start);
        }
        assert forall|i: int| n <= i < ranges.len() implies (#[trigger] ranges[i]).start
            > start by {
            if i < shorter.len() {
                assert(shorter[i] == ranges[i]);
            }
        }
        if starts_ascend(ranges) {
            assert forall|i: int| 0 <= i < n implies (#[trigger] ranges[i]).start <= start by {
                if last.start > start {
                    assert(shorter[i] == ranges[i]);
                }
            }
        }
    }
}

/// A filter keeps the order of the ranges, and keeps what is accepted.
proof fn lemma_filter(ranges: Seq<LibRange>, accepted: spec_fn(LibRange) -> bool)
    ensures
        starts_ascend(ranges) ==> starts_ascend(ranges.filter(accepted)),
        forall|i: int|
            0 <= i < ranges.filter(accepted).len() ==> accepted(
                #[trigger] ranges.filter(accepted)[i],
            ) && ranges.contains(ranges.filter(accepted)[i]),
    decreases ranges.len(),
{
    reveal(Seq::filter);
    if ranges.len() > 0 {
        let shorter = ranges.drop_last();
        lemma_filter(shorter, accepted);
        assert forall|r: LibRange| shorter.contains(r) implies ranges.contains(r) by {
            let i = choose|i: int| 0 <= i < shorter.len() && shorter[i] == r;
            assert(ranges[i] == r);
        }
        assert(ranges.contains(ranges.last())) by {
            assert(ranges[ranges.len() - 1] == ranges.last());
        }
        if starts_ascend(ranges) && accepted(ranges.last()) {
            let kept = shorter.filter(accepted);
            assert(ranges.filter(accepted) == kept.push(ranges.last()));
            assert forall|i: int| 0 <= i < kept.len() implies (#[trigger] kept[i]).start
                <= ranges.last().start by {
                assert(shorter.contains(kept[i]));
                let j = choose|j: int| 0 <= j < shorter.len() && shorter[j] == kept[i];
                assert(ranges[j].start <= ranges[ranges.len() - 1].start);
            }
        }
    }
}

/// When the ranges from `n` on do not cover `address`, and the one before them does, that one is
/// found, and none if there is none before them.
proof fn lemma_last_cover(ranges: Seq<LibRange>, address: u64, n: int)
    requires
        0 <= n <= ranges.len(),
        forall|i: int| n <= i < ranges.len() ==> !covers(#[trigger] ranges[i], address),
        n > 0 ==> covers(ranges[n - 1], address),
    ensures
        range_at(ranges, address) == if n > 0 {
            Some(ranges[n - 1])
        } else {
            None
        },
    decreases ranges.len(),
{
    if n < ranges.len() {
        assert(!covers(ranges[ranges.len() - 1], address));
        lemma_last_cover(ranges.drop_last(), address, n);
    }
}

/// What is found among ranges and later ones is found among the later ones, if anything is.
proof fn lemma_later_ranges(ranges: Seq<LibRange>, later: Seq<LibRange>, address: u64)
    ensures
        range_at(ranges + later, address) == match range_at(later, address) {
            Some(range) => Some(range),
            None => range_at(ranges, address),
        },
    decreases later.len(),
{
    if later.len() == 0 {
        assert(ranges + later =~= ranges);
    } else {
        assert((ranges + later).last() == later[later.len() - 1]);
        assert((ranges + later).drop_last() =~= ranges + later.drop_last());
        lemma_later_ranges(ranges, later.drop_last(), address);
    }
}

/// An address is found in a range if and only if a range covers it. The range that is found
/// covers it, and of all that do it starts nearest to the address.
pub proof fn address_is_in_nearest_range(ranges: Seq<LibRange>, address: u64)
    requires
        starts_ascend(ranges),
    ensures
        match range_at(ranges, address) {
            Some(range) => {
                &&& ranges.contains(range)
                &&& covers(range, address)
                &&& forall|i: int|
                    0 <= i < ranges.len() && covers(#[trigger] ranges[i], address)
                        ==> ranges[i].start <= range.start
            },
            None => forall|i: int| 0 <= i < ranges.len() ==> !covers(#[trigger] ranges[i], address),
        },
    decreases ranges.len(),
{
    if ranges.len() > 0 {
        let shorter = ranges.drop_last();
        let last = ranges[ranges.len() - 1];
        assert(ranges.contains(last));
        if !covers(last, address) {
            address_is_in_nearest_range(shorter, address);
            match range_at(ranges, address) {
                Some(range) => {
                    let k = choose|k: int| 0 <= k < shorter.len() && shorter[k] == range;
                    assert(ranges[k] == range);
                    assert forall|i: int|
                        0 <= i < ranges.len() && covers(
                            #[trigger] ranges[i],
                            address,
                        ) implies ranges[i].start <= range.start by {
                        assert(shorter[i] == ranges[i]);
                    }
                },
                None => {
                    assert forall|i: int| 0 <= i < ranges.len() implies !covers(
                        #[trigger] ranges[i],
                        address,
                    ) by {
                        if i < shorter.len() {
                            assert(shorter[i] == ranges[i]);
                        }
                    }
                },
            }
        }
    }
}

/// An address that one loaded library alone covers resolves to that library, at the address
/// relative to it.
pub proof fn covering_library_is_found(libs: LibsView, library: LibraryInfo, address: u64)
    requires
        libs.valid(),
        libs.holds(library),
        library.avma_range.start <= address < library.avma_range.end,
        libs.covered_by_none_but(library, address),
    ensures
        libs.resolve(address) == Some(
            (relative_address(address, library.base_avma), library.lib@),
        ),
{
    let i = choose|i: int|
        0 <= i < libs.ranges.len() && libs.is_range_of(#[trigger] libs.ranges[i], library);
    assert(covers(libs.ranges[i], address));
    address_is_in_nearest_range(libs.ranges, address);
    let range = range_at(libs.ranges, address)->0;
    let k = choose|k: int| 0 <= k < libs.ranges.len() && libs.ranges[k] == range;
    assert(libs.is_range_of(libs.ranges[k], library));
}

/// An address that no loaded library covers does not resolve.
pub proof fn free_address_is_unknown(libs: LibsView, address: u64)
    requires
        libs.valid(),
        libs.leaves_free(address),
    ensures
        libs.resolve(address) is None,
{
    address_is_in_nearest_range(libs.ranges, address);
    if let Some(range) = range_at(libs.ranges, address) {
        let k = choose|k: int| 0 <= k < libs.ranges.len() && libs.ranges[k] == range;
        assert(!covers(libs.ranges[k], address));
    }
}

/// The range that `library` gets when it is added.
pub open spec fn added_range(libs: LibsView, library: LibraryInfo) -> LibRange {
    LibRange {
        start: library.avma_range.start,
        end: library.avma_range.end,
        base: library.base_avma,
        lib: libs.libs.len() as usize,
    }
}

/// Adding a library puts its range between the others, and leaves those as they are.
proof fn lemma_added(libs: LibsView, library: LibraryInfo) -> (n: int)
    requires
        libs.valid(),
    ensures
        0 <= n <= libs.ranges.len(),
        libs.added(library).ranges == libs.ranges.take(n).push(added_range(libs, library))
            + libs.ranges.skip(n),
        forall|i: int|
            n <= i < libs.ranges.len() ==> (#[trigger] libs.ranges[i]).start
                > library.avma_range.start,
{
    let range = added_range(libs, library);
    let n = place_for(libs.ranges, range.start);
    lemma_place_for(libs.ranges, range.start);
    assert(libs.ranges.insert(n, range) =~= libs.ranges.take(n).push(range) + libs.ranges.skip(n));
    n
}

/// A library that has been added is loaded, and so are all that were loaded before.
pub proof fn added_library_is_loaded(libs: LibsView, library: LibraryInfo)
    requires
        libs.valid(),
        libs.libs.len() <= usize::MAX,
    ensures
        libs.added(library).holds(library),
        forall|other: LibraryInfo|
            libs.holds(other) ==> #[trigger] libs.added(library).holds(other),
{
    let n = lemma_added(libs, library);
    let after = libs.added(library);
    let range = added_range(libs, library);
    assert(after.ranges[n] == range);
    assert(after.is_range_of(after.ranges[n], library));
    assert forall|other: LibraryInfo| libs.holds(other) implies #[trigger] after.holds(other) by {
        let i = choose|i: int|
            0 <= i < libs.ranges.len() && libs.is_range_of(#[trigger] libs.ranges[i], other);
        let k = if i < n {
            i
        } else {
            i + 1
        };
        assert(after.ranges[k] == libs.ranges[i]);
        assert(libs.ranges[i].lib < libs.libs.len());
        assert(after.is_range_of(after.ranges[k], other));
    }
}

/// Unloading the library at one base address leaves those at other base addresses loaded.
pub proof fn other_libraries_stay_loaded(libs: LibsView, base: u64, library: LibraryInfo)
    requires
        libs.holds(library),
        library.base_avma != base,
    ensures
        libs.unloaded(base).holds(library),
{
    let other = |r: LibRange| r.base != base;
    let i = choose|i: int|
        0 <= i < libs.ranges.len() && libs.is_range_of(#[trigger] libs.ranges[i], library);
    lemma_filter_keeps(libs.ranges, other, i);
    let kept = libs.unloaded(base).ranges;
    assert(kept == libs.ranges.filter(other));
    let k = choose|k: int| 0 <= k < kept.len() && kept[k] == libs.ranges[i];
    assert(libs.unloaded(base).is_range_of(kept[k], library));
}

/// A filter keeps what it accepts.
proof fn lemma_filter_keeps(ranges: Seq<LibRange>, accepted: spec_fn(LibRange) -> bool, i: int)
    requires
        0 <= i < ranges.len(),
        accepted(ranges[i]),
    ensures
        ranges.filter(accepted).contains(ranges[i]),
    decreases ranges.len(),
{
    let shorter = ranges.drop_last();
    let last = ranges[ranges.len() - 1];
    assert(shorter.push(last) =~= ranges);
    shorter.lemma_filter_push(last, accepted);
    let kept = ranges.filter(accepted);
    if i < shorter.len() {
        lemma_filter_keeps(shorter, accepted, i);
        let before = shorter.filter(accepted);
        let k = choose|k: int| 0 <= k < before.len() && before[k] == ranges[i];
        assert(kept[k] == ranges[i]);
    } else {
        assert(kept[kept.len() - 1] == last);
    }
}

/// A library that has just been added is found at all of its addresses that no library covers
/// which starts behind it. What is found at all other addresses does not change.
pub proof fn added_library_is_found(libs: LibsView, library: LibraryInfo, address: u64)
    requires
        libs.valid(),
        libs.libs.len() <= usize::MAX,
    ensures
        !(library.avma_range.start <= address < library.avma_range.end) ==> libs.added(
            library,
        ).resolve(address) == libs.resolve(address),
        library.avma_range.start <= address < library.avma_range.end && (forall|i: int|
            0 <= i < libs.ranges.len() && (#[trigger] libs.ranges[i]).start
                > library.avma_range.start ==> !covers(libs.ranges[i], address)) ==> libs.added(
            library,
        ).resolve(address) == Some((relative_address(address, library.base_avma), library.lib@)),
{
    let n = lemma_added(libs, library);
    let range = added_range(libs, library);
    let low = libs.ranges.take(n);
    let high = libs.ranges.skip(n);
    assert(low + high =~= libs.ranges);
    lemma_later_ranges(low.push(range), high, address);
    lemma_later_ranges(low, high, address);
    assert(low.push(range).drop_last() =~= low);
    if covers(range, address) {
        if forall|i: int|
            0 <= i < libs.ranges.len() && (#[trigger] libs.ranges[i]).start > range.start
                ==> !covers(libs.ranges[i], address) {
            assert forall|i: int| 0 <= i < high.len() implies !covers(
                #[trigger] high[i],
                address,
            ) by {
                assert(high[i] == libs.ranges[n + i]);
            }
            lemma_last_cover(high, address, 0);
        }
    } else {
        address_is_in_nearest_range(libs.ranges, address);
        if let Some(found) = range_at(libs.ranges, address) {
            let k = choose|k: int| 0 <= k < libs.ranges.len() && libs.ranges[k] == found;
            assert(libs.ranges[k].lib < libs.libs.len());
        }
    }
}

/// No address resolves to a library that has been unloaded, until another one is added.
pub proof fn unloaded_library_is_gone(libs: LibsView, base: u64, address: u64)
    requires
        libs.valid(),
    ensures
        libs.unloaded(base).valid(),
        range_at(libs.unloaded(base).ranges, address) matches Some(range) ==> range.base != base
            && libs.ranges.contains(range),
{
    let other = |r: LibRange| r.base != base;
    lemma_filter(libs.ranges, other);
    let kept = libs.unloaded(base).ranges;
    assert(kept == libs.ranges.filter(other));
    address_is_in_nearest_range(kept, address);
    if let Some(range) = range_at(kept, address) {
        let k = choose|k: int| 0 <= k < kept.len() && kept[k] == range;
        assert(other(kept[k]));
    }
    assert forall|i: int| 0 <= i < kept.len() implies (#[trigger] kept[i]).lib
        < libs.libs.len() by {
        assert(libs.ranges.contains(kept[i]));
        let k = choose|k: int| 0 <= k < libs.ranges.len() && libs.ranges[k] == kept[i];
        assert(libs.ranges[k].lib < libs.libs.len());
    }
}

/// A filter that accepts everything changes nothing.
proof fn lemma_filter_all(ranges: Seq<LibRange>, accepted: spec_fn(LibRange) -> bool)
    requires
        forall|i: int| 0 <= i < ranges.len() ==> accepted(#[trigger] ranges[i]),
    ensures
        ranges.filter(accepted) == ranges,
    decreases ranges.len(),
{
    if ranges.len() > 0 {
        let shorter = ranges.drop_last();
        let last = ranges[ranges.len() - 1];
        lemma_filter_all(shorter, accepted);
        shorter.lemma_filter_push(last, accepted);
        assert(shorter.push(last) =~= ranges);
    } else {
        reveal(Seq::filter);
        assert(ranges.filter(accepted) =~= ranges);
    }
}

/// Unloading a library takes back what adding it has done, if nothing else has its base address.
pub proof fn unloading_undoes_adding(libs: LibsView, library: LibraryInfo)
    requires
        libs.valid(),
        forall|i: int|
            0 <= i < libs.ranges.len() ==> (#[trigger] libs.ranges[i]).base != library.base_avma,
    ensures
        libs.added(library).unloaded(library.base_avma).ranges == libs.ranges,
{
    let n = lemma_added(libs, library);
    let range = added_range(libs, library);
    let other = |r: LibRange| r.base != library.base_avma;
    let low = libs.ranges.take(n);
    let high = libs.ranges.skip(n);
    lemma_filter_all(low, other);
    lemma_filter_all(high, other);
    low.lemma_filter_push(range, other);
    Seq::filter_distributes_over_add(low.push(range), high, other);
    assert(low + high =~= libs.ranges);
}

/// Adding a library adds its range and its description, and changes nothing else. Unloading takes
/// away all ranges of that base address, and changes nothing else.
pub proof fn ranges_come_and_go_one_by_one(
    libs: LibsView,
    library: LibraryInfo,
    base: u64,
    range: LibRange,
)
    requires
        libs.libs.len() <= usize::MAX,
    ensures
        libs.added(library).libs == libs.libs.push(library.lib@),
        libs.added(library).ranges.to_multiset() == libs.ranges.to_multiset().insert(
            LibRange {
                start: library.avma_range.start,
                end: library.avma_range.end,
                base: library.base_avma,
                lib: libs.libs.len() as usize,
            },
        ),
        libs.unloaded(base).libs == libs.libs,
        range.base != base ==> libs.unloaded(base).ranges.to_multiset().count(range)
            == libs.ranges.to_multiset().count(range),
        range.base == base ==> libs.unloaded(base).ranges.to_multiset().count(range) == 0,
{
    broadcast use vstd::seq_lib::group_to_multiset_ensures;

    let new = added_range(libs, library);
    lemma_place_for(libs.ranges, new.start);
    vstd::seq_lib::to_multiset_insert(libs.ranges, place_for(libs.ranges, new.start), new);
    lemma_filter_count(libs.ranges, |r: LibRange| r.base != base, range);
}

/// A filter keeps what it accepts as often as it was there, and nothing else.
proof fn lemma_filter_count(
    ranges: Seq<LibRange>,
    accepted: spec_fn(LibRange) -> bool,
    range: LibRange,
)
    ensures
        ranges.filter(accepted).to_multiset().count(range) == if accepted(range) {
            ranges.to_multiset().count(range)
        } else {
            0
        },
    decreases ranges.len(),
{
    broadcast use vstd::seq_lib::group_to_multiset_ensures;

    if ranges.len() == 0 {
        reveal(Seq::filter);
        assert(ranges.filter(accepted) =~= ranges);
        assert(!ranges.contains(range));
    } else {
        let shorter = ranges.drop_last();
        let last = ranges[ranges.len() - 1];
        assert(shorter.push(last) =~= ranges);
        lemma_filter_count(shorter, accepted, range);
        shorter.lemma_filter_push(last, accepted);
    }
}

/// Adding and unloading keep the ranges sorted by their start.
pub proof fn ranges_stay_sorted(libs: LibsView, library: LibraryInfo, base: u64)
    requires
        libs.libs.len() < usize::MAX,
        forall|i: int, j: int|
            0 <= i < j < libs.ranges.len() ==> (#[trigger] libs.ranges[i]).start <= (
            #[trigger] libs.ranges[j]).start,
    ensures
        forall|i: int, j: int|
            #![trigger libs.added(library).ranges[i], libs.added(library).ranges[j]]
            0 <= i < j < libs.added(library).ranges.len() ==> libs.added(library).ranges[i].start
                <= libs.added(library).ranges[j].start,
        forall|i: int, j: int|
            #![trigger libs.unloaded(base).ranges[i], libs.unloaded(base).ranges[j]]
            0 <= i < j < libs.unloaded(base).ranges.len() ==> libs.unloaded(base).ranges[i].start
                <= libs.unloaded(base).ranges[j].start,
{
    lemma_place_for(libs.ranges, library.avma_range.start);
    lemma_filter(libs.ranges, |r: LibRange| r.base != base);
    assert(starts_ascend(libs.ranges));
    assert(starts_ascend(libs.unloaded(base).ranges));
}

/// An address resolves if and only if it lies in a loaded range. It resolves to the library of a
/// range that it lies in, and to the distance from that range's base; no range that it lies in
/// starts later.
pub proof fn addresses_resolve_into_ranges(libs: LibsView, address: u64)
    requires
        forall|i: int, j: int|
            0 <= i < j < libs.ranges.len() ==> (#[trigger] libs.ranges[i]).start <= (
            #[trigger] libs.ranges[j]).start,
    ensures
        libs.resolve(address) is None <==> forall|i: int|
            0 <= i < libs.ranges.len() ==> !((#[trigger] libs.ranges[i]).start <= address
                && address < libs.ranges[i].end),
        libs.resolve(address) matches Some((relative, lib)) ==> exists|i: int|
            {
                &&& 0 <= i < libs.ranges.len()
                &&& (#[trigger] libs.ranges[i]).start <= address
                &&& address < libs.ranges[i].end
                &&& lib == libs.libs[libs.ranges[i].lib as int]
                &&& (libs.ranges[i].base + relative) % 0x1_0000_0000 == address % 0x1_0000_0000
                &&& libs.ranges[i].base <= address < libs.ranges[i].base + 0x1_0000_0000
                    ==> relative == address - libs.ranges[i].base
                &&& forall|j: int|
                    0 <= j < libs.ranges.len() && (#[trigger] libs.ranges[j]).start <= address
                        && address < libs.ranges[j].end ==> libs.ranges[j].start
                        <= libs.ranges[i].start
            },
{
    assert(starts_ascend(libs.ranges));
    address_is_in_nearest_range(libs.ranges, address);
    match range_at(libs.ranges, address) {
        Some(range) => {
            let k = choose|k: int| 0 <= k < libs.ranges.len() && libs.ranges[k] == range;
            assert(covers(libs.ranges[k], address));
            let relative = relative_address(address, range.base);
            assert((range.base + relative) % 0x1_0000_0000 == address % 0x1_0000_0000);
            assert forall|j: int|
                0 <= j < libs.ranges.len() && (#[trigger] libs.ranges[j]).start <= address
                    && address < libs.ranges[j].end implies libs.ranges[j].start
                <= libs.ranges[k].start by {
                assert(covers(libs.ranges[j], address));
            }
        },
        None => {
            assert forall|i: int| 0 <= i < libs.ranges.len() implies !((
            #[trigger] libs.ranges[i]).start <= address && address < libs.ranges[i].end) by {
                assert(!covers(libs.ranges[i], address));
            }
        },
    }
}

/// Of a library just added, all addresses of its range resolve to it, at their distance from its
/// base, unless they lie in a range that starts later. All other addresses resolve as before.
pub proof fn added_library_takes_its_addresses(
    libs: LibsView,
    library: LibraryInfo,
    address: u64,
)
    requires
        libs.valid(),
        libs.libs.len() <= usize::MAX,
    ensures
        !(library.avma_range.start <= address && address < library.avma_range.end) ==> libs.added(
            library,
        ).resolve(address) == libs.resolve(address),
        library.avma_range.start <= address && address < library.avma_range.end && (forall|i: int|
            0 <= i < libs.ranges.len() && (#[trigger] libs.ranges[i]).start
                > library.avma_range.start ==> !(libs.ranges[i].start <= address && address
                < libs.ranges[i].end)) ==> {
            &&& libs.added(library).resolve(address) matches Some((relative, lib))
            &&& lib == library.lib@
            &&& library.base_avma <= address < library.base_avma + 0x1_0000_0000 ==> relative
                == address - library.base_avma
            &&& (library.base_avma + relative) % 0x1_0000_0000 == address % 0x1_0000_0000
        },
{
    added_library_is_found(libs, library, address);
    let relative = relative_address(address, library.base_avma);
    assert((library.base_avma + relative) % 0x1_0000_0000 == address % 0x1_0000_0000);
}

/// The view of a library holds its fields, each where it belongs.
pub proof fn lib_is_viewed_field_by_field(lib: Lib)
    ensures
        lib@.name == lib.name@,
        lib@.debug_name == lib.debug_name@,
        lib@.path == lib.path@,
        lib@.debug_path == lib.debug_path@,
        lib@.debug_id == lib.debug_id@,
        lib.code_id matches Some(s) ==> lib@.code_id == Some(s@),
        lib.code_id is None ==> lib@.code_id is None,
        lib.arch matches Some(s) ==> lib@.arch == Some(s@),
        lib.arch is None ==> lib@.arch is None,
        lib.symbol_table matches Some(table) ==> lib@.symbol_table == Some((*table)@),
        lib.symbol_table is None ==> lib@.symbol_table is None,
{
}

/// The JSON of a library holds what its view holds, each under its key.
pub proof fn lib_json_holds_the_library(lib: LibView)
    ensures
        lib_json(lib) matches JsonView::Object(entries) && {
            &&& entries.len() == 7
            &&& entries[0] == ("name"@, JsonView::Text(lib.name))
            &&& entries[1] == ("path"@, JsonView::Text(lib.path))
            &&& entries[2] == ("debugName"@, JsonView::Text(lib.debug_name))
            &&& entries[3] == ("debugPath"@, JsonView::Text(lib.debug_path))
            &&& entries[4] == ("breakpadId"@, JsonView::Text(lib.debug_id))
            &&& entries[5].0 == "codeId"@
            &&& lib.code_id matches Some(s) ==> entries[5].1 == JsonView::Text(s)
            &&& lib.code_id is None ==> entries[5].1 == JsonView::Null
            &&& entries[6].0 == "arch"@
            &&& lib.arch matches Some(s) ==> entries[6].1 == JsonView::Text(s)
            &&& lib.arch is None ==> entries[6].1 == JsonView::Null
        },
{
}

/// Nothing is loaded at first, so no address is in a library.
pub proof fn nothing_is_loaded_at_first(address: u64)
    ensures
        LibsView::empty().ranges.len() == 0,
        LibsView::empty().libs.len() == 0,
        LibsView::empty().resolve(address) is None,
{
}

} // verus!
