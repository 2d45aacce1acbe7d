//! The tables in which a thread keeps its call stacks.
//!
//! A stack is a frame and the stack of its caller. A frame refers to the function that it is in,
//! and a function of a library to the library. Every table holds each of its rows once.

use crate::category::{CategoryPairHandle, SubcategoryIndex};
use crate::digits::{address_text, format_address, number_read, written_address_is_read_back};
use crate::intern::{extends, index_is_unique, interned, interned_is_stable, Interner, Packed};
use crate::library::{GlobalLibTable, Lib, LibView};
use crate::string_table::StringTable;
use crate::symbol_table::{
    lookup_finds_the_symbol_around_an_address, symbol_at, SymbolTable, SymbolView,
};
use vstd::prelude::*;

verus! {

/// Where a frame is, in terms of the tables of the profile and of the thread.
#[derive(Debug, Clone, Copy, PartialEq, Eq, Structural)]
pub enum InternalFrameLocation {
    /// An address that is in no known library.
    UnknownAddress(u64),
    /// A relative address, and the library that it is relative to.
    AddressInLib(u32, usize),
    /// A string of the thread.
    Label(usize),
}

/// A frame, in terms of the tables of the profile and of the thread.
#[derive(Debug, Clone, Copy, PartialEq, Eq, Structural)]
pub struct InternalFrame {
    pub location: InternalFrameLocation,
    pub category_pair: CategoryPairHandle,
}

/// A library that functions belong to.
#[derive(Debug, Clone, Copy, PartialEq, Eq, Structural)]
pub struct ResourceRow {
    pub lib: usize,
    /// The name of the library, as a string of the thread.
    pub name: usize,
}

/// A function.
#[derive(Debug, Clone, Copy, PartialEq, Eq, Structural)]
pub struct FuncRow {
    /// The name of the function, as a string of the thread.
    pub name: usize,
    pub resource: Option<usize>,
}

/// A stack: a frame, and the stack that it was called from.
#[derive(Debug, Clone, Copy, PartialEq, Eq, Structural)]
pub struct StackRow {
    pub prefix: Option<usize>,
    pub frame: usize,
}

/// Where a frame is.
#[verifier::ext_equal]
pub enum CodeLocation {
    /// At an address that is in no known library.
    Unknown(u64),
    /// At a relative address in a library.
    InLib(u32, LibView),
    /// In something that has a name of its own.
    Label(Seq<char>),
}

/// The name of the function that a frame is in: the symbol where it is known, else the address.
pub open spec fn location_name(location: CodeLocation) -> Seq<char> {
    match location {
        CodeLocation::Unknown(address) => address_text(address),
        CodeLocation::InLib(relative, lib) => symbol_name(lib, relative),
        CodeLocation::Label(name) => name,
    }
}

/// The name of the symbol at a relative address, or the address as text.
pub open spec fn symbol_name(lib: LibView, relative: u32) -> Seq<char> {
    match lib.symbol_table {
        Some(table) => match symbol_at(table, relative) {
            Some(symbol) => symbol.name,
            None => address_text(relative as u64),
        },
        None => address_text(relative as u64),
    }
}

/// The index at which a row stands.
pub open spec fn index_in<T>(rows: Seq<T>, row: T) -> usize {
    rows.index_of(row) as usize
}

/// The contents of the tables.
#[verifier::ext_equal]
pub struct TablesView {
    pub strings: Seq<Seq<char>>,
    pub resources: Seq<ResourceRow>,
    pub funcs: Seq<FuncRow>,
    pub frames: Seq<InternalFrame>,
    /// For each frame, the function that it is in.
    pub frame_funcs: Seq<usize>,
    pub stacks: Seq<StackRow>,
}

impl TablesView {
    /// Tables without rows.
    pub open spec fn empty() -> TablesView {
        TablesView {
            strings: Seq::empty(),
            resources: Seq::empty(),
            funcs: Seq::empty(),
            frames: Seq::empty(),
            frame_funcs: Seq::empty(),
            stacks: Seq::empty(),
        }
    }

    /// All rows of `shorter` are here too, at the same places.
    pub open spec fn continues(self, shorter: TablesView) -> bool {
        &&& extends(self.strings, shorter.strings)
        &&& extends(self.resources, shorter.resources)
        &&& extends(self.funcs, shorter.funcs)
        &&& extends(self.frames, shorter.frames)
        &&& extends(self.frame_funcs, shorter.frame_funcs)
        &&& extends(self.stacks, shorter.stacks)
    }

    /// All indexes into the tables are machine integers.
    pub open spec fn fits(self) -> bool {
        &&& self.strings.len() <= usize::MAX
        &&& self.resources.len() <= usize::MAX
        &&& self.funcs.len() <= usize::MAX
        &&& self.frames.len() <= usize::MAX
        &&& self.stacks.len() <= usize::MAX
    }

    /// What a location refers to exists.
    pub open spec fn location_ok(
        self,
        globals: Seq<LibView>,
        location: InternalFrameLocation,
    ) -> bool {
        match location {
            InternalFrameLocation::UnknownAddress(_) => true,
            InternalFrameLocation::AddressInLib(_, lib) => lib < globals.len(),
            InternalFrameLocation::Label(s) => s < self.strings.len(),
        }
    }

    /// What a location says.
    pub open spec fn code_location(
        self,
        globals: Seq<LibView>,
        location: InternalFrameLocation,
    ) -> CodeLocation {
        match location {
            InternalFrameLocation::UnknownAddress(address) => CodeLocation::Unknown(address),
            InternalFrameLocation::AddressInLib(relative, lib) => CodeLocation::InLib(
                relative,
                globals[lib as int],
            ),
            InternalFrameLocation::Label(s) => CodeLocation::Label(self.strings[s as int]),
        }
    }

    /// A resource has the name of its library.
    pub open spec fn resource_ok(self, globals: Seq<LibView>, i: int) -> bool {
        let row = self.resources[i];
        &&& row.lib < globals.len()
        &&& row.name < self.strings.len()
        &&& self.strings[row.name as int] == globals[row.lib as int].name
    }

    /// What a function refers to exists.
    pub open spec fn func_ok(self, i: int) -> bool {
        let row = self.funcs[i];
        &&& row.name < self.strings.len()
        &&& row.resource matches Some(resource) ==> resource < self.resources.len()
    }

    /// A frame is in a function that has the name, and belongs to the library, that its location
    /// says.
    pub open spec fn frame_ok(self, globals: Seq<LibView>, i: int) -> bool {
        let location = self.frames[i].location;
        let func = self.funcs[self.frame_funcs[i] as int];
        &&& self.location_ok(globals, location)
        &&& self.frame_funcs[i] < self.funcs.len()
        &&& self.strings[func.name as int] == location_name(self.code_location(globals, location))
        &&& match location {
            InternalFrameLocation::AddressInLib(_, lib) => func.resource matches Some(resource)
                && self.resources[resource as int].lib == lib,
            _ => func.resource is None,
        }
    }

    /// A stack comes after the stack of its caller.
    pub open spec fn stack_ok(self, i: int) -> bool {
        let row = self.stacks[i];
        &&& row.frame < self.frames.len()
        &&& row.prefix matches Some(prefix) ==> prefix < i
    }

    /// No row occurs twice, and all rows are in order.
    pub open spec fn valid(self, globals: Seq<LibView>) -> bool {
        &&& self.strings.no_duplicates()
        &&& self.resources.no_duplicates()
        &&& self.funcs.no_duplicates()
        &&& self.frames.no_duplicates()
        &&& self.stacks.no_duplicates()
        &&& self.frame_funcs.len() == self.frames.len()
        &&& forall|i: int|
            0 <= i < self.resources.len() ==> #[trigger] self.resource_ok(globals, i)
        &&& forall|i: int| 0 <= i < self.funcs.len() ==> #[trigger] self.func_ok(i)
        &&& forall|i: int| 0 <= i < self.frames.len() ==> #[trigger] self.frame_ok(globals, i)
        &&& forall|i: int| 0 <= i < self.stacks.len() ==> #[trigger] self.stack_ok(i)
    }

    /// With a string.
    pub open spec fn with_string(self, s: Seq<char>) -> TablesView {
        TablesView { strings: interned(self.strings, s), ..self }
    }

    /// The row for a library whose name is among the strings.
    pub open spec fn resource_row(self, globals: Seq<LibView>, lib: usize) -> ResourceRow {
        ResourceRow { lib, name: index_in(self.strings, globals[lib as int].name) }
    }

    /// With a row for a library.
    pub open spec fn with_resource(self, globals: Seq<LibView>, lib: usize) -> TablesView {
        let named = self.with_string(globals[lib as int].name);
        TablesView {
            resources: interned(named.resources, named.resource_row(globals, lib)),
            ..named
        }
    }

    /// With what the function of a frame at `location` refers to.
    pub open spec fn with_names(
        self,
        globals: Seq<LibView>,
        location: InternalFrameLocation,
    ) -> TablesView {
        let named = self.with_string(location_name(self.code_location(globals, location)));
        match location {
            InternalFrameLocation::AddressInLib(_, lib) => named.with_resource(globals, lib),
            _ => named,
        }
    }

    /// The function of a frame at `location`, where the tables hold what it refers to.
    pub open spec fn func_row(
        self,
        globals: Seq<LibView>,
        location: InternalFrameLocation,
    ) -> FuncRow {
        FuncRow {
            name: index_in(
                self.strings,
                location_name(self.code_location(globals, location)),
            ),
            resource: match location {
                InternalFrameLocation::AddressInLib(_, lib) => Some(
                    index_in(self.resources, self.resource_row(globals, lib)),
                ),
                _ => None,
            },
        }
    }

    /// With a frame, and with the function that it is in.
    pub open spec fn with_frame(self, globals: Seq<LibView>, frame: InternalFrame) -> TablesView {
        if self.frames.contains(frame) {
            self
        } else {
            let named = self.with_names(globals, frame.location);
            let row = named.func_row(globals, frame.location);
            let funcs = interned(named.funcs, row);
            TablesView {
                funcs,
                frames: named.frames.push(frame),
                frame_funcs: named.frame_funcs.push(index_in(funcs, row)),
                ..named
            }
        }
    }

    /// With a stack.
    pub open spec fn with_stack(self, row: StackRow) -> TablesView {
        TablesView { stacks: interned(self.stacks, row), ..self }
    }

    /// The frames of a stack, the outermost caller first.
    pub open spec fn frames_of(self, stack: Option<usize>) -> Seq<InternalFrame>
        decreases
                match stack {
                    Some(i) => i + 1,
                    None => 0,
                },
    {
        match stack {
            None => Seq::empty(),
            Some(i) => {
                let row = self.stacks[i as int];
                let callers = match row.prefix {
                    Some(prefix) => if prefix < i {
                        self.frames_of(row.prefix)
                    } else {
                        Seq::empty()
                    },
                    None => Seq::empty(),
                };
                callers.push(self.frames[row.frame as int])
            },
        }
    }

    /// What the frames of a stack say, the outermost caller first.
    pub open spec fn call_stack(
        self,
        globals: Seq<LibView>,
        stack: Option<usize>,
    ) -> Seq<(CodeLocation, CategoryPairHandle)> {
        self.frames_of(stack).map_values(
            |frame: InternalFrame|
                (self.code_location(globals, frame.location), frame.category_pair),
        )
    }
}

/// Rows that are in order stay so when rows are added behind them.
pub proof fn lemma_continued(
    longer: TablesView,
    longer_globals: Seq<LibView>,
    tables: TablesView,
    globals: Seq<LibView>,
)
    requires
        tables.valid(globals),
        longer.continues(tables),
        extends(longer_globals, globals),
    ensures
        forall|i: int|
            0 <= i < tables.resources.len() ==> #[trigger] longer.resource_ok(longer_globals, i),
        forall|i: int| 0 <= i < tables.funcs.len() ==> #[trigger] longer.func_ok(i),
        forall|i: int|
            0 <= i < tables.frames.len() ==> #[trigger] longer.frame_ok(longer_globals, i),
        forall|i: int| 0 <= i < tables.stacks.len() ==> #[trigger] longer.stack_ok(i),
{
    assert forall|i: int| 0 <= i < tables.resources.len() implies #[trigger] longer.resource_ok(
        longer_globals,
        i,
    ) by {
        assert(tables.resource_ok(globals, i));
    }
    assert forall|i: int| 0 <= i < tables.funcs.len() implies #[trigger] longer.func_ok(i) by {
        assert(tables.func_ok(i));
    }
    assert forall|i: int| 0 <= i < tables.frames.len() implies #[trigger] longer.frame_ok(
        longer_globals,
        i,
    ) by {
        assert(tables.frame_ok(globals, i));
        let f = tables.frame_funcs[i] as int;
        assert(tables.func_ok(f));
        assert(longer.frame_funcs[i] == tables.frame_funcs[i]);
        assert(longer.funcs[f] == tables.funcs[f]);
        let name = tables.funcs[f].name as int;
        assert(longer.strings[name] == tables.strings[name]);
    }
    assert forall|i: int| 0 <= i < tables.stacks.len() implies #[trigger] longer.stack_ok(i) by {
        assert(tables.stack_ok(i));
    }
}

/// Adding to the libraries of the profile does not harm.
pub proof fn lemma_globals_extended(
    tables: TablesView,
    globals: Seq<LibView>,
    longer: Seq<LibView>,
)
    requires
        tables.valid(globals),
        extends(longer, globals),
    ensures
        tables.valid(longer),
{
    lemma_continued(tables, longer, tables, globals);
}

/// A string can be added.
pub proof fn lemma_with_string(tables: TablesView, globals: Seq<LibView>, s: Seq<char>)
    requires
        tables.valid(globals),
    ensures
        tables.with_string(s).valid(globals),
        tables.with_string(s).continues(tables),
        tables.with_string(s).strings.contains(s),
{
    interned_is_stable(tables.strings, s);
    lemma_continued(tables.with_string(s), globals, tables, globals);
}

/// The index of a row that is in a table leads to the row.
proof fn lemma_index_in<T>(rows: Seq<T>, row: T)
    requires
        rows.contains(row),
    ensures
        0 <= rows.index_of(row) < rows.len(),
        rows[rows.index_of(row)] == row,
{
}

/// The row for a library can be added.
pub proof fn lemma_with_resource(tables: TablesView, globals: Seq<LibView>, lib: usize)
    requires
        tables.valid(globals),
        lib < globals.len(),
        tables.with_resource(globals, lib).fits(),
    ensures
        tables.with_resource(globals, lib).valid(globals),
        tables.with_resource(globals, lib).continues(tables),
        tables.with_resource(globals, lib).strings.contains(globals[lib as int].name),
        tables.with_resource(globals, lib).resources.contains(
            tables.with_resource(globals, lib).resource_row(globals, lib),
        ),
{
    let name = globals[lib as int].name;
    let named = tables.with_string(name);
    lemma_with_string(tables, globals, name);
    lemma_index_in(named.strings, name);
    let row = named.resource_row(globals, lib);
    let longer = tables.with_resource(globals, lib);
    interned_is_stable(named.resources, row);
    assert(longer.continues(named));
    lemma_continued(longer, globals, named, globals);
    assert forall|i: int| 0 <= i < longer.resources.len() implies #[trigger] longer.resource_ok(
        globals,
        i,
    ) by {
        if i >= named.resources.len() {
            assert(longer.resources[i] == row);
        }
    }
}

/// What the function of a frame refers to can be added.
pub proof fn lemma_with_names(
    tables: TablesView,
    globals: Seq<LibView>,
    location: InternalFrameLocation,
)
    requires
        tables.valid(globals),
        tables.location_ok(globals, location),
        tables.with_names(globals, location).fits(),
    ensures
        tables.with_names(globals, location).valid(globals),
        tables.with_names(globals, location).continues(tables),
        tables.with_names(globals, location).code_location(globals, location)
            == tables.code_location(globals, location),
        tables.with_names(globals, location).strings.contains(
            location_name(tables.code_location(globals, location)),
        ),
        location matches InternalFrameLocation::AddressInLib(_, lib) ==> tables.with_names(
            globals,
            location,
        ).resources.contains(
            tables.with_names(globals, location).resource_row(globals, lib),
        ),
{
    let name = location_name(tables.code_location(globals, location));
    let named = tables.with_string(name);
    lemma_with_string(tables, globals, name);
    if let InternalFrameLocation::AddressInLib(_, lib) = location {
        lemma_with_resource(named, globals, lib);
        lemma_index_in(named.strings, name);
        let longer = named.with_resource(globals, lib);
        assert(longer.strings[named.strings.index_of(name)] == name);
    }
}

/// A frame can be added.
pub proof fn lemma_with_frame(tables: TablesView, globals: Seq<LibView>, frame: InternalFrame)
    requires
        tables.valid(globals),
        tables.location_ok(globals, frame.location),
        tables.with_frame(globals, frame).fits(),
    ensures
        tables.with_frame(globals, frame).valid(globals),
        tables.with_frame(globals, frame).continues(tables),
        tables.with_frame(globals, frame).frames.contains(frame),
{
    if !tables.frames.contains(frame) {
        let location = frame.location;
        let name = location_name(tables.code_location(globals, location));
        let named = tables.with_names(globals, location);
        lemma_with_names(tables, globals, location);
        let row = named.func_row(globals, location);
        let longer = tables.with_frame(globals, frame);
        interned_is_stable(named.funcs, row);
        lemma_index_in(longer.funcs, row);
        lemma_index_in(named.strings, name);
        assert(named.frames == tables.frames);
        assert(longer.continues(named));
        lemma_continued(longer, globals, named, globals);
        if let InternalFrameLocation::AddressInLib(_, lib) = location {
            lemma_index_in(named.resources, named.resource_row(globals, lib));
        }
        assert forall|i: int| 0 <= i < longer.funcs.len() implies #[trigger] longer.func_ok(i) by {
            if i >= named.funcs.len() {
                assert(longer.funcs[i] == row);
            }
        }
        let last = tables.frames.len() as int;
        assert(longer.frames[last] == frame);
        assert(longer.frame_ok(globals, last));
        assert forall|i: int| 0 <= i < longer.frames.len() implies #[trigger] longer.frame_ok(
            globals,
            i,
        ) by {}
        assert(longer.frames.no_duplicates());
    }
}

/// A stack can be added.
pub proof fn lemma_with_stack(tables: TablesView, globals: Seq<LibView>, row: StackRow)
    requires
        tables.valid(globals),
        row.frame < tables.frames.len(),
        row.prefix matches Some(prefix) ==> prefix < tables.stacks.len(),
    ensures
        tables.with_stack(row).valid(globals),
        tables.with_stack(row).continues(tables),
        tables.with_stack(row).stacks.contains(row),
{
    let longer = tables.with_stack(row);
    interned_is_stable(tables.stacks, row);
    lemma_continued(longer, globals, tables, globals);
    assert forall|i: int| 0 <= i < longer.stacks.len() implies #[trigger] longer.stack_ok(i) by {
        if i >= tables.stacks.len() {
            assert(longer.stacks[i] == row);
        }
    }
}

/// The stack is one of the tables, or the empty one.
pub open spec fn stack_exists(tables: TablesView, stack: Option<usize>) -> bool {
    stack matches Some(i) ==> i < tables.stacks.len()
}

/// A stack stays what it is when rows are added to the tables.
pub proof fn lemma_frames_of_continued(
    longer: TablesView,
    tables: TablesView,
    globals: Seq<LibView>,
    stack: Option<usize>,
)
    requires
        tables.valid(globals),
        longer.continues(tables),
        stack_exists(tables, stack),
    ensures
        longer.frames_of(stack) == tables.frames_of(stack),
    decreases
            match stack {
                Some(i) => i + 1,
                None => 0,
            },
{
    if let Some(i) = stack {
        assert(tables.stack_ok(i as int));
        lemma_frames_of_continued(longer, tables, globals, tables.stacks[i as int].prefix);
    }
}

/// All frames of a stack are frames of the tables.
proof fn lemma_frames_of_known(tables: TablesView, globals: Seq<LibView>, stack: Option<usize>)
    requires
        tables.valid(globals),
        stack_exists(tables, stack),
    ensures
        forall|k: int|
            0 <= k < tables.frames_of(stack).len() ==> tables.frames.contains(
                #[trigger] tables.frames_of(stack)[k],
            ),
    decreases
            match stack {
                Some(i) => i + 1,
                None => 0,
            },
{
    if let Some(i) = stack {
        assert(tables.stack_ok(i as int));
        let row = tables.stacks[i as int];
        lemma_frames_of_known(tables, globals, row.prefix);
        let callers = tables.frames_of(row.prefix);
        assert(tables.frames_of(stack) =~= callers.push(tables.frames[row.frame as int]));
        assert forall|k: int| 0 <= k < tables.frames_of(stack).len() implies tables.frames.contains(
            #[trigger] tables.frames_of(stack)[k],
        ) by {
            if k < callers.len() {
                assert(tables.frames_of(stack)[k] == callers[k]);
            }
        }
    }
}

/// What was recorded stays what it is: adding rows to the tables, and libraries to the profile,
/// does not change what any stack says.
pub proof fn recorded_stacks_are_stable(
    longer: TablesView,
    longer_globals: Seq<LibView>,
    tables: TablesView,
    globals: Seq<LibView>,
    stack: Option<usize>,
)
    requires
        tables.valid(globals),
        longer.continues(tables),
        extends(longer_globals, globals),
        stack_exists(tables, stack),
    ensures
        longer.call_stack(longer_globals, stack) == tables.call_stack(globals, stack),
{
    lemma_frames_of_continued(longer, tables, globals, stack);
    lemma_frames_of_known(tables, globals, stack);
    let frames = tables.frames_of(stack);
    assert forall|k: int| 0 <= k < frames.len() implies longer.code_location(
        longer_globals,
        (#[trigger] frames[k]).location,
    ) == tables.code_location(globals, frames[k].location) by {
        let i = choose|i: int| 0 <= i < tables.frames.len() && tables.frames[i] == frames[k];
        assert(tables.frame_ok(globals, i));
    }
    assert(longer.call_stack(longer_globals, stack) =~= tables.call_stack(globals, stack));
}

/// Two frames that say the same are the same.
proof fn lemma_frame_is_unique(
    tables: TablesView,
    globals: Seq<LibView>,
    a: InternalFrame,
    b: InternalFrame,
)
    requires
        tables.valid(globals),
        globals.no_duplicates(),
        tables.frames.contains(a),
        tables.frames.contains(b),
        tables.code_location(globals, a.location) == tables.code_location(globals, b.location),
        a.category_pair == b.category_pair,
    ensures
        a == b,
{
    let i = choose|i: int| 0 <= i < tables.frames.len() && tables.frames[i] == a;
    let j = choose|j: int| 0 <= j < tables.frames.len() && tables.frames[j] == b;
    assert(tables.frame_ok(globals, i));
    assert(tables.frame_ok(globals, j));
}

/// A call stack is recorded once: two stacks that say the same are the same stack.
pub proof fn equal_stacks_are_shared(
    tables: TablesView,
    globals: Seq<LibView>,
    a: Option<usize>,
    b: Option<usize>,
)
    requires
        tables.valid(globals),
        globals.no_duplicates(),
        stack_exists(tables, a),
        stack_exists(tables, b),
        tables.call_stack(globals, a) == tables.call_stack(globals, b),
    ensures
        a == b,
    decreases
            match a {
                Some(i) => i + 1,
                None => 0,
            },
{
    let calls = tables.call_stack(globals, a);
    assert(calls.len() == tables.frames_of(a).len());
    assert(tables.call_stack(globals, b).len() == tables.frames_of(b).len());
    match (a, b) {
        (Some(i), Some(j)) => {
            assert(tables.stack_ok(i as int));
            assert(tables.stack_ok(j as int));
            let row_a = tables.stacks[i as int];
            let row_b = tables.stacks[j as int];
            let frame_a = tables.frames[row_a.frame as int];
            let frame_b = tables.frames[row_b.frame as int];
            lemma_last_call(tables, globals, i);
            lemma_last_call(tables, globals, j);
            assert(tables.call_stack(globals, row_a.prefix) =~= tables.call_stack(
                globals,
                a,
            ).drop_last());
            assert(tables.call_stack(globals, row_b.prefix) =~= tables.call_stack(
                globals,
                b,
            ).drop_last());
            equal_stacks_are_shared(tables, globals, row_a.prefix, row_b.prefix);
            assert(tables.call_stack(globals, a).last() == tables.call_stack(globals, b).last());
            lemma_frame_is_unique(tables, globals, frame_a, frame_b);
            assert(row_a.frame == row_b.frame);
            assert(row_a == row_b);
        },
        _ => {},
    }
}

/// A stack is the stack of its caller and one more call.
proof fn lemma_last_call(tables: TablesView, globals: Seq<LibView>, i: usize)
    requires
        tables.valid(globals),
        i < tables.stacks.len(),
    ensures
        tables.call_stack(globals, Some(i)) == tables.call_stack(
            globals,
            tables.stacks[i as int].prefix,
        ).push(
            {
                let frame = tables.frames[tables.stacks[i as int].frame as int];
                (tables.code_location(globals, frame.location), frame.category_pair)
            },
        ),
{
    assert(tables.stack_ok(i as int));
    let row = tables.stacks[i as int];
    let frame = tables.frames[row.frame as int];
    assert(tables.frames_of(Some(i)) =~= tables.frames_of(row.prefix).push(frame));
    assert(tables.call_stack(globals, Some(i)) =~= tables.call_stack(globals, row.prefix).push(
        (tables.code_location(globals, frame.location), frame.category_pair),
    ));
}

/// The tables of a thread and the libraries of the profile, while a stack is being recorded.
#[verifier::ext_equal]
pub struct StackState {
    pub tables: TablesView,
    pub globals: Seq<LibView>,
    /// The stack of the calls that have been recorded so far.
    pub stack: Option<usize>,
}

impl StackState {
    /// The tables are in order, and the stack is one of theirs.
    pub open spec fn valid(self) -> bool {
        &&& self.tables.valid(self.globals)
        &&& self.globals.no_duplicates()
        &&& stack_exists(self.tables, self.stack)
    }

    /// All indexes are machine integers.
    pub open spec fn fits(self) -> bool {
        &&& self.tables.fits()
        &&& self.globals.len() <= usize::MAX
    }

    /// The calls of the stack.
    pub open spec fn calls(self) -> Seq<(CodeLocation, CategoryPairHandle)> {
        self.tables.call_stack(self.globals, self.stack)
    }

    /// With what a location refers to.
    pub open spec fn located(self, location: CodeLocation) -> StackState {
        match location {
            CodeLocation::Unknown(_) => self,
            CodeLocation::InLib(_, lib) => StackState {
                globals: interned(self.globals, lib),
                ..self
            },
            CodeLocation::Label(s) => StackState { tables: self.tables.with_string(s), ..self },
        }
    }

    /// A location, where the tables hold what it refers to.
    pub open spec fn internal_location(self, location: CodeLocation) -> InternalFrameLocation {
        match location {
            CodeLocation::Unknown(address) => InternalFrameLocation::UnknownAddress(address),
            CodeLocation::InLib(relative, lib) => InternalFrameLocation::AddressInLib(
                relative,
                index_in(self.globals, lib),
            ),
            CodeLocation::Label(s) => InternalFrameLocation::Label(
                index_in(self.tables.strings, s),
            ),
        }
    }

    /// After one more frame.
    pub open spec fn framed(self, frame: InternalFrame) -> StackState {
        let tables = self.tables.with_frame(self.globals, frame);
        let row = StackRow { prefix: self.stack, frame: index_in(tables.frames, frame) };
        let stacked = tables.with_stack(row);
        StackState { tables: stacked, stack: Some(index_in(stacked.stacks, row)), ..self }
    }

    /// After one more call.
    pub open spec fn called(self, call: (CodeLocation, CategoryPairHandle)) -> StackState {
        let located = self.located(call.0);
        located.framed(
            InternalFrame { location: located.internal_location(call.0), category_pair: call.1 },
        )
    }

    /// After a number of calls, the outermost caller first.
    pub open spec fn called_all(
        self,
        calls: Seq<(CodeLocation, CategoryPairHandle)>,
    ) -> StackState
        decreases calls.len(),
    {
        if calls.len() == 0 {
            self
        } else {
            self.called_all(calls.drop_last()).called(calls.last())
        }
    }
}

/// Locating a frame keeps the state in order.
pub proof fn lemma_located(state: StackState, location: CodeLocation)
    requires
        state.valid(),
        state.located(location).fits(),
    ensures
        state.located(location).valid(),
        state.located(location).tables.continues(state.tables),
        extends(state.located(location).globals, state.globals),
        state.located(location).tables.location_ok(
            state.located(location).globals,
            state.located(location).internal_location(location),
        ),
        state.located(location).tables.code_location(
            state.located(location).globals,
            state.located(location).internal_location(location),
        ) == location,
{
    match location {
        CodeLocation::Unknown(_) => {},
        CodeLocation::InLib(_, lib) => {
            interned_is_stable(state.globals, lib);
            lemma_globals_extended(state.tables, state.globals, interned(state.globals, lib));
            lemma_index_in(interned(state.globals, lib), lib);
        },
        CodeLocation::Label(s) => {
            lemma_with_string(state.tables, state.globals, s);
            lemma_index_in(state.tables.with_string(s).strings, s);
        },
    }
}

/// Recording a frame adds one call to the stack.
pub proof fn lemma_framed(state: StackState, frame: InternalFrame)
    requires
        state.valid(),
        state.tables.location_ok(state.globals, frame.location),
        state.framed(frame).fits(),
    ensures
        state.framed(frame).valid(),
        state.framed(frame).tables.continues(state.tables),
        state.framed(frame).calls() == state.calls().push(
            (state.tables.code_location(state.globals, frame.location), frame.category_pair),
        ),
{
    let globals = state.globals;
    let tables = state.tables.with_frame(globals, frame);
    lemma_with_frame(state.tables, globals, frame);
    lemma_index_in(tables.frames, frame);
    let row = StackRow { prefix: state.stack, frame: index_in(tables.frames, frame) };
    let stacked = tables.with_stack(row);
    lemma_with_stack(tables, globals, row);
    lemma_index_in(stacked.stacks, row);
    let index = index_in(stacked.stacks, row);
    lemma_last_call(stacked, globals, index);
    assert(stacked.continues(state.tables));
    recorded_stacks_are_stable(stacked, globals, state.tables, globals, state.stack);
}

/// The tables only grow.
proof fn lemma_called_grows(state: StackState, call: (CodeLocation, CategoryPairHandle))
    ensures
        state.called(call).fits() ==> state.fits() && state.located(call.0).fits(),
{
}

/// What is read back is what was recorded: after a number of calls the stack holds those that it
/// held before, then the recorded ones in their order. What other stacks say does not change.
pub proof fn recorded_calls_are_read_back(
    state: StackState,
    calls: Seq<(CodeLocation, CategoryPairHandle)>,
)
    requires
        state.valid(),
        state.called_all(calls).fits(),
    ensures
        state.called_all(calls).valid(),
        state.called_all(calls).calls() == state.calls() + calls,
        state.called_all(calls).tables.continues(state.tables),
        extends(state.called_all(calls).globals, state.globals),
        forall|stack: Option<usize>|
            stack_exists(state.tables, stack) ==> #[trigger] state.called_all(
                calls,
            ).tables.call_stack(state.called_all(calls).globals, stack)
                == state.tables.call_stack(state.globals, stack),
    decreases calls.len(),
{
    let after = state.called_all(calls);
    if calls.len() == 0 {
        assert(state.calls() + calls =~= state.calls());
    } else {
        let call = calls.last();
        let before = state.called_all(calls.drop_last());
        lemma_called_grows(before, call);
        recorded_calls_are_read_back(state, calls.drop_last());
        lemma_located(before, call.0);
        let located = before.located(call.0);
        let frame = InternalFrame {
            location: located.internal_location(call.0),
            category_pair: call.1,
        };
        lemma_framed(located, frame);
        recorded_stacks_are_stable(
            located.tables,
            located.globals,
            before.tables,
            before.globals,
            before.stack,
        );
        assert(after.calls() =~= state.calls() + calls);
        assert(after.tables.continues(state.tables));
    }
    assert forall|stack: Option<usize>| stack_exists(state.tables, stack) implies #[trigger] state
        .called_all(calls).tables.call_stack(state.called_all(calls).globals, stack)
        == state.tables.call_stack(state.globals, stack) by {
        recorded_stacks_are_stable(
            after.tables,
            after.globals,
            state.tables,
            state.globals,
            stack,
        );
    }
}

/// Recording the same calls again finds the same stack.
pub proof fn same_calls_share_a_stack(
    state: StackState,
    calls: Seq<(CodeLocation, CategoryPairHandle)>,
)
    requires
        state.valid(),
        state.stack is None,
        (StackState { stack: None, ..state.called_all(calls) }).called_all(calls).fits(),
    ensures
        (StackState { stack: None, ..state.called_all(calls) }).called_all(calls).stack
            == state.called_all(calls).stack,
{
    let once = state.called_all(calls);
    let reset = StackState { stack: None, ..once };
    let twice = reset.called_all(calls);
    lemma_called_all_grows(reset, calls);
    recorded_calls_are_read_back(state, calls);
    recorded_calls_are_read_back(reset, calls);
    assert(state.calls() =~= Seq::empty());
    assert(reset.calls() =~= Seq::empty());
    assert(once.calls() =~= calls);
    assert(twice.calls() =~= calls);
    recorded_stacks_are_stable(
        twice.tables,
        twice.globals,
        once.tables,
        once.globals,
        once.stack,
    );
    equal_stacks_are_shared(twice.tables, twice.globals, once.stack, twice.stack);
}

/// The tables only grow.
proof fn lemma_called_all_grows(
    state: StackState,
    calls: Seq<(CodeLocation, CategoryPairHandle)>,
)
    ensures
        state.called_all(calls).fits() ==> state.fits(),
    decreases calls.len(),
{
    if calls.len() > 0 {
        lemma_called_grows(state.called_all(calls.drop_last()), calls.last());
        lemma_called_all_grows(state, calls.drop_last());
    }
}

impl Packed for ResourceRow {
    open spec fn packable(self) -> bool {
        true
    }

    open spec fn packed(self) -> u128 {
        (self.lib + 0x1_0000_0000_0000_0000 * self.name) as u128
    }

    proof fn packed_injective(a: Self, b: Self) {
    }

    fn pack(&self) -> (key: u128) {
        self.lib as u128 + 0x1_0000_0000_0000_0000 * (self.name as u128)
    }
}

/// An index that may be missing, as a number.
pub open spec fn optional_number(index: Option<usize>) -> int {
    match index {
        Some(index) => index + 1,
        None => 0,
    }
}

impl Packed for FuncRow {
    open spec fn packable(self) -> bool {
        self.resource matches Some(resource) ==> resource < usize::MAX
    }

    open spec fn packed(self) -> u128 {
        (self.name + 0x1_0000_0000_0000_0000 * optional_number(self.resource)) as u128
    }

    proof fn packed_injective(a: Self, b: Self) {
    }

    fn pack(&self) -> (key: u128) {
        let resource: u128 = match self.resource {
            Some(resource) => resource as u128 + 1,
            None => 0,
        };
        self.name as u128 + 0x1_0000_0000_0000_0000 * resource
    }
}

impl Packed for StackRow {
    open spec fn packable(self) -> bool {
        self.prefix matches Some(prefix) ==> prefix < usize::MAX
    }

    open spec fn packed(self) -> u128 {
        (self.frame + 0x1_0000_0000_0000_0000 * optional_number(self.prefix)) as u128
    }

    proof fn packed_injective(a: Self, b: Self) {
    }

    fn pack(&self) -> (key: u128) {
        let prefix: u128 = match self.prefix {
            Some(prefix) => prefix as u128 + 1,
            None => 0,
        };
        self.frame as u128 + 0x1_0000_0000_0000_0000 * prefix
    }
}

/// The numbers that make up a location.
pub open spec fn location_numbers(location: InternalFrameLocation) -> (int, int, int) {
    match location {
        InternalFrameLocation::UnknownAddress(address) => (0, 0, address as int),
        InternalFrameLocation::AddressInLib(relative, lib) => (1, relative as int, lib as int),
        InternalFrameLocation::Label(s) => (2, 0, s as int),
    }
}

/// A subcategory that may be missing, as a number.
pub open spec fn subcategory_number(subcategory: Option<SubcategoryIndex>) -> int {
    match subcategory {
        Some(subcategory) => subcategory.0 + 1,
        None => 0,
    }
}

impl Packed for InternalFrame {
    open spec fn packable(self) -> bool {
        true
    }

    open spec fn packed(self) -> u128 {
        let (kind, relative, payload) = location_numbers(self.location);
        let category = self.category_pair.0.0 as int;
        let subcategory = subcategory_number(self.category_pair.1);
        (payload + 0x1_0000_0000_0000_0000 * (relative + 0x1_0000_0000 * (category + 0x1_0000 * (
        subcategory + 0x200 * kind)))) as u128
    }

    proof fn packed_injective(a: Self, b: Self) {
    }

    fn pack(&self) -> (key: u128) {
        let (kind, relative, payload): (u128, u128, u128) = match self.location {
            InternalFrameLocation::UnknownAddress(address) => (0, 0, address as u128),
            InternalFrameLocation::AddressInLib(relative, lib) => (
                1,
                relative as u128,
                lib as u128,
            ),
            InternalFrameLocation::Label(s) => (2, 0, s as u128),
        };
        let category: u128 = self.category_pair.0.0 as u128;
        let subcategory: u128 = match self.category_pair.1 {
            Some(subcategory) => subcategory.0 as u128 + 1,
            None => 0,
        };
        payload + 0x1_0000_0000_0000_0000 * (relative + 0x1_0000_0000 * (category + 0x1_0000 * (
        subcategory + 0x200 * kind)))
    }
}

/// The tables in which a thread keeps its strings and its call stacks.
#[derive(Debug)]
pub struct StackTables {
    strings: StringTable,
    resources: Interner<ResourceRow>,
    funcs: Interner<FuncRow>,
    frames: Interner<InternalFrame>,
    frame_funcs: Vec<usize>,
    stacks: Interner<StackRow>,
}

impl View for StackTables {
    type V = TablesView;

    closed spec fn view(&self) -> TablesView {
        TablesView {
            strings: self.strings@,
            resources: self.resources@,
            funcs: self.funcs@,
            frames: self.frames@,
            frame_funcs: self.frame_funcs@,
            stacks: self.stacks@,
        }
    }
}

impl StackTables {
    /// Rows can be found in the tables.
    pub closed spec fn searchable(self) -> bool {
        &&& self.strings.wf()
        &&& self.resources.wf()
        &&& self.funcs.wf()
        &&& self.frames.wf()
        &&& self.stacks.wf()
    }

    /// Rows can be found in the tables, and all rows are in order.
    pub open spec fn wf(self, globals: Seq<LibView>) -> bool {
        &&& self.searchable()
        &&& self@.valid(globals)
    }

    /// Adding to the libraries of the profile does not harm.
    pub proof fn lemma_extended(self, globals: Seq<LibView>, longer: Seq<LibView>)
        requires
            self.wf(globals),
            extends(longer, globals),
        ensures
            self.wf(longer),
    {
        lemma_globals_extended(self@, globals, longer);
    }

    /// Tables without rows.
    pub fn new() -> (tables: Self)
        ensures
            forall|globals: Seq<LibView>| #[trigger] tables.wf(globals),
            tables@ == TablesView::empty(),
    {
        StackTables {
            strings: StringTable::new(),
            resources: Interner::new(),
            funcs: Interner::new(),
            frames: Interner::new(),
            frame_funcs: Vec::new(),
            stacks: Interner::new(),
        }
    }

    pub fn strings(&self) -> (strings: &StringTable)
        ensures
            strings@ == self@.strings,
    {
        &self.strings
    }

    pub fn resources(&self) -> (resources: &Vec<ResourceRow>)
        ensures
            resources@ == self@.resources,
    {
        self.resources.rows()
    }

    pub fn funcs(&self) -> (funcs: &Vec<FuncRow>)
        ensures
            funcs@ == self@.funcs,
    {
        self.funcs.rows()
    }

    pub fn frames(&self) -> (frames: &Vec<InternalFrame>)
        ensures
            frames@ == self@.frames,
    {
        self.frames.rows()
    }

    pub fn frame_funcs(&self) -> (frame_funcs: &Vec<usize>)
        ensures
            frame_funcs@ == self@.frame_funcs,
    {
        &self.frame_funcs
    }

    pub fn stacks(&self) -> (stacks: &Vec<StackRow>)
        ensures
            stacks@ == self@.stacks,
    {
        self.stacks.rows()
    }

    /// The index of a string, which is added if it is not in the table.
    pub fn index_for_string(&mut self, s: &str) -> (index: usize)
        requires
            old(self).searchable(),
        ensures
            final(self).searchable(),
            final(self)@ == old(self)@.with_string(s@),
            index < final(self)@.strings.len(),
            index == index_in(final(self)@.strings, s@),
    {
        let index: usize = self.strings.index_for_string(s);
        proof {
            self.strings.lemma_no_duplicates();
            index_is_unique(self.strings@, s@, index as int);
        }
        index
    }

    /// The index of the row for a library, which is added if it is not in the table.
    fn resource_for_lib(&mut self, globals: &GlobalLibTable, lib: usize) -> (index: usize)
        requires
            old(self).wf(globals@),
            lib < globals@.len(),
        ensures
            final(self).wf(globals@),
            final(self)@ == old(self)@.with_resource(globals@, lib),
            index < final(self)@.resources.len() <= usize::MAX,
            index == index_in(
                final(self)@.resources,
                final(self)@.resource_row(globals@, lib),
            ),
    {
        let name: usize = self.index_for_string(globals.get(lib).name.as_str());
        proof {
            lemma_with_string(old(self)@, globals@, globals@[lib as int].name);
        }
        let row: ResourceRow = ResourceRow { lib, name };
        assert(row == self@.resource_row(globals@, lib));
        let index: usize = self.resources.index_for(row);
        proof {
            self.resources.lemma_no_duplicates();
            index_is_unique(self.resources@, row, index as int);
            self.lemma_fits();
            lemma_with_resource(old(self)@, globals@, lib);
        }
        index
    }

    /// The tables are in memory, so their indexes are machine integers.
    pub proof fn lemma_fits(&self)
        ensures
            self@.fits(),
    {
        self.strings.lemma_fits();
        self.resources.lemma_fits();
        self.funcs.lemma_fits();
        self.frames.lemma_fits();
        self.stacks.lemma_fits();
    }

    /// The index of a frame, which is added if it is not in the table.
    pub fn frame_index_for_frame(
        &mut self,
        frame: InternalFrame,
        globals: &GlobalLibTable,
    ) -> (index: usize)
        requires
            old(self).wf(globals@),
            old(self)@.location_ok(globals@, frame.location),
        ensures
            final(self).wf(globals@),
            final(self)@ == old(self)@.with_frame(globals@, frame),
            index < final(self)@.frames.len(),
            index == index_in(final(self)@.frames, frame),
    {
        match self.frames.find(frame) {
            Some(index) => {
                proof {
                    index_is_unique(self.frames@, frame, index as int);
                }
                index
            },
            None => {
                let ghost location = self@.code_location(globals@, frame.location);
                let name_text: String = match frame.location {
                    InternalFrameLocation::UnknownAddress(address) => format_address(address),
                    InternalFrameLocation::AddressInLib(relative, lib) => find_symbol_name(
                        globals.get(lib),
                        relative,
                    ),
                    InternalFrameLocation::Label(s) => self.strings.get(s).to_string(),
                };
                assert(name_text@ == location_name(location));
                let name: usize = self.index_for_string(name_text.as_str());
                proof {
                    lemma_with_string(old(self)@, globals@, name_text@);
                }
                let ghost named = self@;
                let resource: Option<usize> = match frame.location {
                    InternalFrameLocation::AddressInLib(_, lib) => Some(
                        self.resource_for_lib(globals, lib),
                    ),
                    _ => None,
                };
                proof {
                    assert(self@ == old(self)@.with_names(globals@, frame.location));
                    self.lemma_fits();
                    lemma_with_names(old(self)@, globals@, frame.location);
                    assert(self@.strings[name as int] == name_text@) by {
                        lemma_index_in(named.strings, name_text@);
                        if let InternalFrameLocation::AddressInLib(_, lib) = frame.location {
                            lemma_with_resource(named, globals@, lib);
                        }
                    }
                    index_is_unique(self@.strings, name_text@, name as int);
                }
                let row: FuncRow = FuncRow { name, resource };
                assert(row == self@.func_row(globals@, frame.location));
                let func: usize = self.funcs.index_for(row);
                proof {
                    self.funcs.lemma_no_duplicates();
                    index_is_unique(self.funcs@, row, func as int);
                }
                let index: usize = self.frames.push(frame);
                self.frame_funcs.push(func);
                proof {
                    assert(self@ =~= old(self)@.with_frame(globals@, frame));
                    self.lemma_fits();
                    lemma_with_frame(old(self)@, globals@, frame);
                    index_is_unique(self.frames@, frame, index as int);
                }
                index
            },
        }
    }

    /// The index of a stack, which is added if it is not in the table.
    pub fn stack_index_for_stack(
        &mut self,
        prefix: Option<usize>,
        frame: usize,
    ) -> (index: usize)
        requires
            old(self).searchable(),
            stack_exists(old(self)@, prefix),
        ensures
            final(self).searchable(),
            final(self)@ == old(self)@.with_stack(StackRow { prefix, frame }),
            index < final(self)@.stacks.len(),
            index == index_in(final(self)@.stacks, (StackRow { prefix, frame })),
    {
        let row: StackRow = StackRow { prefix, frame };
        proof {
            self.lemma_fits();
        }
        let index: usize = self.stacks.index_for(row);
        proof {
            self.stacks.lemma_no_duplicates();
            index_is_unique(self.stacks@, row, index as int);
        }
        index
    }
}

/// The name of the symbol at a relative address, or the address as text.
fn find_symbol_name(lib: &Lib, relative: u32) -> (name: String)
    ensures
        name@ == symbol_name(lib@, relative),
{
    if let Some(table) = &lib.symbol_table {
        let table: &SymbolTable = table;
        if let Some(symbol) = table.lookup(relative) {
            return symbol.name.clone();
        }
    }
    format_address(relative as u64)
}

/// A stack is read from its rows: no stack has no calls, and any other has the calls of the stack
/// that its row names as the caller, then the call of the frame that its row names, as the frame
/// says it.
pub proof fn stack_is_read_row_by_row(
    tables: TablesView,
    globals: Seq<LibView>,
    i: usize,
    caller: Seq<(CodeLocation, CategoryPairHandle)>,
)
    requires
        tables.stacks[i as int].prefix matches Some(prefix) ==> prefix < i,
        caller == tables.call_stack(globals, tables.stacks[i as int].prefix),
    ensures
        tables.call_stack(globals, None).len() == 0,
        tables.call_stack(globals, Some(i)).len() == caller.len() + 1,
        tables.call_stack(globals, Some(i)).drop_last() == caller,
        tables.call_stack(globals, Some(i)).last().1
            == tables.frames[tables.stacks[i as int].frame as int].category_pair,
        tables.frames[tables.stacks[i as int].frame as int].location
            matches InternalFrameLocation::UnknownAddress(address) ==> tables.call_stack(
            globals,
            Some(i),
        ).last().0 == CodeLocation::Unknown(address),
        tables.frames[tables.stacks[i as int].frame as int].location
            matches InternalFrameLocation::AddressInLib(relative, lib) ==> tables.call_stack(
            globals,
            Some(i),
        ).last().0 == CodeLocation::InLib(relative, globals[lib as int]),
        tables.frames[tables.stacks[i as int].frame as int].location
            matches InternalFrameLocation::Label(s) ==> tables.call_stack(
            globals,
            Some(i),
        ).last().0 == CodeLocation::Label(tables.strings[s as int]),
{
    let row = tables.stacks[i as int];
    let frame = tables.frames[row.frame as int];
    assert(tables.frames_of(Some(i)) =~= tables.frames_of(row.prefix).push(frame));
    assert(tables.call_stack(globals, Some(i)) =~= caller.push(
        (tables.code_location(globals, frame.location), frame.category_pair),
    ));
    assert(tables.call_stack(globals, Some(i)).drop_last() =~= caller);
}

/// `symbol` number `i` of a table is the last that starts at or before an address, and the address
/// is not behind its end.
pub open spec fn symbol_is_around(table: Seq<SymbolView>, i: int, address: u32) -> bool {
    &&& table[i].address <= address
    &&& i + 1 < table.len() ==> address < table[i + 1].address
    &&& table[i].size matches Some(size) ==> address - table[i].address < size
}

/// A text is `0x` and then a number.
pub open spec fn is_address(text: Seq<char>, address: nat) -> bool {
    &&& text.len() > 2
    &&& text[0] == '0'
    &&& text[1] == 'x'
    &&& number_read(text.skip(2), 16) == address
}

/// A frame outside of libraries is in a function of no library, with the name that the frame was
/// given or with its address for a name.
pub proof fn frame_outside_libraries_is_named(tables: TablesView, globals: Seq<LibView>, k: int)
    requires
        tables.valid(globals),
        0 <= k < tables.frames.len(),
        !(tables.frames[k].location is AddressInLib),
    ensures
        tables.frame_funcs[k] < tables.funcs.len(),
        tables.funcs[tables.frame_funcs[k] as int].name < tables.strings.len(),
        tables.funcs[tables.frame_funcs[k] as int].resource is None,
        tables.frames[k].location matches InternalFrameLocation::Label(s)
            ==> tables.strings[tables.funcs[tables.frame_funcs[k] as int].name as int]
            == tables.strings[s as int],
        tables.frames[k].location matches InternalFrameLocation::UnknownAddress(address)
            ==> is_address(
            tables.strings[tables.funcs[tables.frame_funcs[k] as int].name as int],
            address as nat,
        ),
{
    assert(tables.frame_ok(globals, k));
    assert(tables.func_ok(tables.frame_funcs[k] as int));
    if let InternalFrameLocation::UnknownAddress(address) = tables.frames[k].location {
        written_address_is_read_back(address, address);
    }
}

/// A frame in a library is in a function of that library. The function has the name of the symbol
/// around the relative address of the frame, where the library knows one, else that address for a
/// name.
pub proof fn frame_in_a_library_is_named(
    tables: TablesView,
    globals: Seq<LibView>,
    k: int,
    relative: u32,
    lib: usize,
)
    requires
        tables.valid(globals),
        0 <= k < tables.frames.len(),
        tables.frames[k].location == InternalFrameLocation::AddressInLib(relative, lib),
        globals[lib as int].symbol_table matches Some(table) ==> forall|i: int, j: int|
            0 <= i < j < table.len() ==> (#[trigger] table[i]).address < (
            #[trigger] table[j]).address,
    ensures
        tables.frame_funcs[k] < tables.funcs.len(),
        tables.funcs[tables.frame_funcs[k] as int].name < tables.strings.len(),
        tables.funcs[tables.frame_funcs[k] as int].resource matches Some(resource) && {
            &&& resource < tables.resources.len()
            &&& tables.resources[resource as int].lib == lib
            &&& tables.resources[resource as int].name < tables.strings.len()
            &&& tables.strings[tables.resources[resource as int].name as int]
                == globals[lib as int].name
        },
        ({
            let name = tables.strings[tables.funcs[tables.frame_funcs[k] as int].name as int];
            &&& globals[lib as int].symbol_table is None ==> is_address(name, relative as nat)
            &&& globals[lib as int].symbol_table matches Some(table) ==> {
                &&& forall|i: int|
                    0 <= i < table.len() && #[trigger] symbol_is_around(table, i, relative) ==> name
                        == table[i].name
                &&& (forall|i: int|
                    0 <= i < table.len() ==> !(#[trigger] symbol_is_around(table, i, relative)))
                    ==> is_address(name, relative as nat)
            }
        }),
{
    assert(tables.frame_ok(globals, k));
    assert(tables.func_ok(tables.frame_funcs[k] as int));
    let resource = tables.funcs[tables.frame_funcs[k] as int].resource->0;
    assert(tables.resource_ok(globals, resource as int));
    written_address_is_read_back(relative as u64, relative as u64);
    if let Some(table) = globals[lib as int].symbol_table {
        let found = symbol_at(table, relative);
        assert forall|i: int|
            0 <= i < table.len() && #[trigger] symbol_is_around(table, i, relative) implies found
            == Some(table[i]) by {
            lookup_finds_the_symbol_around_an_address(table, relative, i);
        }
        if found is Some && table.len() > 0 {
            lookup_finds_the_symbol_around_an_address(table, relative, 0);
            let i = choose|i: int| 0 <= i < table.len() && table[i] == found->0;
            lookup_finds_the_symbol_around_an_address(table, relative, i);
            assert(symbol_is_around(table, i, relative));
        }
    }
}

/// The index of a row is the same in longer tables.
proof fn lemma_index_extended<T>(longer: Seq<T>, rows: Seq<T>, row: T)
    requires
        longer.no_duplicates(),
        extends(longer, rows),
        rows.contains(row),
    ensures
        longer.contains(row),
        longer.index_of(row) == rows.index_of(row),
{
    lemma_index_in(rows, row);
    let i = rows.index_of(row);
    assert(longer[i] == row);
    lemma_index_in(longer, row);
}

/// One more call adds a row to a table only where the table does not have it: the library that the
/// call is in, its frame, its function, its library and its stack. The stack is that of the frame
/// of the call, called from the stack so far.
pub proof fn one_call_adds_what_is_new(
    state: StackState,
    location: CodeLocation,
    category_pair: CategoryPairHandle,
)
    requires
        state.valid(),
        state.called((location, category_pair)).fits(),
    ensures
        ({
            let after = state.called((location, category_pair));
            &&& after.stack matches Some(i) && {
                &&& i < after.tables.stacks.len()
                &&& after.tables.stacks[i as int].prefix == state.stack
                &&& after.tables.stacks[i as int].frame < after.tables.frames.len()
                &&& after.tables.frames[after.tables.stacks[i as int].frame as int].category_pair
                    == category_pair
            }
            &&& extends(after.globals, state.globals)
            &&& after.tables.continues(state.tables)
            &&& after.tables.stacks.len() <= state.tables.stacks.len() + 1
            &&& after.tables.frames.len() <= state.tables.frames.len() + 1
            &&& after.tables.frame_funcs.len() == after.tables.frames.len()
            &&& after.tables.funcs.len() <= state.tables.funcs.len() + 1
            &&& after.tables.resources.len() <= state.tables.resources.len() + 1
            &&& after.tables.strings.len() <= state.tables.strings.len() + 2
            &&& !(location is InLib) ==> {
                &&& after.globals == state.globals
                &&& after.tables.resources == state.tables.resources
                &&& after.tables.strings.len() <= state.tables.strings.len() + 1
            }
            &&& location matches CodeLocation::InLib(_, lib) ==> {
                &&& after.globals.contains(lib)
                &&& state.globals.contains(lib) ==> after.globals == state.globals
                &&& !state.globals.contains(lib) ==> after.globals == state.globals.push(lib)
            }
        }),
{
    let call = (location, category_pair);
    let located = state.located(location);
    lemma_located(state, location);
    let frame = InternalFrame { location: located.internal_location(location), category_pair };
    lemma_framed(located, frame);
    lemma_with_frame(located.tables, located.globals, frame);
    let tables = located.tables.with_frame(located.globals, frame);
    let row = StackRow { prefix: located.stack, frame: index_in(tables.frames, frame) };
    lemma_index_in(tables.frames, frame);
    lemma_with_stack(tables, located.globals, row);
    lemma_index_in(tables.with_stack(row).stacks, row);
}

/// A call that was recorded can be recorded again from the same stack without a change.
proof fn lemma_called_again(
    before: StackState,
    call: (CodeLocation, CategoryPairHandle),
    later: StackState,
)
    requires
        before.valid(),
        before.called(call).fits(),
        later.tables.valid(later.globals),
        later.globals.no_duplicates(),
        later.tables.continues(before.called(call).tables),
        extends(later.globals, before.called(call).globals),
    ensures
        (StackState { stack: before.stack, ..later }).called(call) == (StackState {
            stack: before.called(call).stack,
            ..later
        }),
{
    let after = before.called(call);
    let located = before.located(call.0);
    lemma_located(before, call.0);
    let frame = InternalFrame {
        location: located.internal_location(call.0),
        category_pair: call.1,
    };
    lemma_framed(located, frame);
    lemma_with_frame(located.tables, located.globals, frame);
    let tables = located.tables.with_frame(located.globals, frame);
    let row = StackRow { prefix: before.stack, frame: index_in(tables.frames, frame) };
    lemma_index_in(tables.frames, frame);
    lemma_with_stack(tables, located.globals, row);
    lemma_index_extended(later.tables.frames, tables.frames, frame);
    lemma_index_extended(later.tables.stacks, after.tables.stacks, row);
    match call.0 {
        CodeLocation::Unknown(_) => {},
        CodeLocation::InLib(_, lib) => {
            interned_is_stable(before.globals, lib);
            lemma_index_extended(later.globals, located.globals, lib);
        },
        CodeLocation::Label(s) => {
            lemma_with_string(before.tables, before.globals, s);
            lemma_index_in(located.tables.strings, s);
            lemma_index_extended(later.tables.strings, located.tables.strings, s);
        },
    }
    let again = StackState { stack: before.stack, ..later };
    assert(again.located(call.0) == again);
    assert(again.internal_location(call.0) == frame.location);
    assert(again.tables.with_frame(again.globals, frame) == again.tables);
    assert(again.tables.with_stack(row) == again.tables);
}

/// Recording the same calls again adds nothing to the tables and to the libraries, and gives the
/// same stack.
pub proof fn recording_again_changes_nothing(
    state: StackState,
    calls: Seq<(CodeLocation, CategoryPairHandle)>,
)
    requires
        state.valid(),
        state.called_all(calls).fits(),
    ensures
        (StackState { stack: state.stack, ..state.called_all(calls) }).called_all(calls)
            == state.called_all(calls),
{
    recorded_calls_are_read_back(state, calls);
    lemma_recorded_again(state, calls, state.called_all(calls));
}

/// Recording the same calls again adds nothing to tables that have grown since.
proof fn lemma_recorded_again(
    state: StackState,
    calls: Seq<(CodeLocation, CategoryPairHandle)>,
    later: StackState,
)
    requires
        state.valid(),
        state.called_all(calls).fits(),
        later.tables.valid(later.globals),
        later.globals.no_duplicates(),
        later.tables.continues(state.called_all(calls).tables),
        extends(later.globals, state.called_all(calls).globals),
    ensures
        (StackState { stack: state.stack, ..later }).called_all(calls) == (StackState {
            stack: state.called_all(calls).stack,
            ..later
        }),
    decreases calls.len(),
{
    if calls.len() > 0 {
        let before = state.called_all(calls.drop_last());
        let call = calls.last();
        lemma_called_grows(before, call);
        recorded_calls_are_read_back(state, calls.drop_last());
        one_call_adds_what_is_new(before, call.0, call.1);
        assert(later.tables.continues(before.tables));
        lemma_recorded_again(state, calls.drop_last(), later);
        lemma_called_again(before, call, later);
    }
}

/// New tables have no rows.
pub proof fn new_tables_have_no_rows()
    ensures
        TablesView::empty().strings.len() == 0,
        TablesView::empty().resources.len() == 0,
        TablesView::empty().funcs.len() == 0,
        TablesView::empty().frames.len() == 0,
        TablesView::empty().frame_funcs.len() == 0,
        TablesView::empty().stacks.len() == 0,
{
}

} // verus!
