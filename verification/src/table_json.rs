//! The tables of a thread as JSON: an object with one list for each column.

use crate::category::{subcategories_json, Category, CategoryPairHandle, CategoryView};
use crate::json::{
    items_view, json_optional_index, json_text, list, optional_index, Json, JsonView, ObjectBuilder,
};
use crate::marker::{MarkerRow, MarkerTiming, MarkerView};
use crate::sample_table::SampleRow;
use crate::stack_tables::{
    FuncRow, InternalFrame, InternalFrameLocation, ResourceRow, StackRow, StackTables, TablesView,
};
use crate::string_table::StringTable;
use crate::timestamp::Timestamp;
use vstd::prelude::*;

verus! {

/// One cell for each row.
pub open spec fn column_json<T>(rows: Seq<T>, cell: spec_fn(T) -> JsonView) -> JsonView {
    JsonView::List(rows.map_values(cell))
}

/// The same cell for each of `n` rows.
pub open spec fn repeated_json(n: nat, cell: JsonView) -> JsonView {
    JsonView::List(Seq::new(n, |i: int| cell))
}

/// One cell for each row.
pub(crate) fn column<T, F: Fn(&T) -> Json>(
    rows: &Vec<T>,
    make_cell: F,
    Ghost(cell): Ghost<spec_fn(T) -> JsonView>,
) -> (json: Json)
    requires
        forall|row: &T| #[trigger] call_requires(make_cell, (row,)),
        forall|row: &T, made: Json| #[trigger]
            call_ensures(make_cell, (row,), made) ==> made@ == cell(*row),
    ensures
        json@ == column_json(rows@, cell),
{
    let mut cells: Vec<Json> = Vec::new();
    let mut i: usize = 0;
    while i < rows.len()
        invariant
            i <= rows@.len(),
            items_view(cells@) == rows@.take(i as int).map_values(cell),
            forall|row: &T| #[trigger] call_requires(make_cell, (row,)),
            forall|row: &T, made: Json| #[trigger]
                call_ensures(make_cell, (row,), made) ==> made@ == cell(*row),
        decreases rows@.len() - i,
    {
        let made: Json = make_cell(&rows[i]);
        proof {
            assert(items_view(cells@.push(made)) =~= items_view(cells@).push(made@));
            assert(rows@.take(i + 1).map_values(cell) =~= rows@.take(i as int).map_values(
                cell,
            ).push(cell(rows@[i as int])));
        }
        cells.push(made);
        i = i + 1;
    }
    assert(rows@.take(i as int) =~= rows@);
    list(cells)
}

/// The same cell for each of `n` rows.
fn repeated(n: usize, cell: Json) -> (json: Json)
    ensures
        json@ == repeated_json(n as nat, cell@),
{
    let mut cells: Vec<Json> = Vec::new();
    let mut i: usize = 0;
    while i < n
        invariant
            i <= n,
            items_view(cells@) == Seq::new(i as nat, |k: int| cell@),
        decreases n - i,
    {
        let copy: Json = cell.duplicate();
        assert(items_view(cells@.push(copy)) =~= items_view(cells@).push(copy@));
        cells.push(copy);
        i = i + 1;
        assert(items_view(cells@) =~= Seq::new(i as nat, |k: int| cell@));
    }
    list(cells)
}

/// An index.
pub open spec fn index_json(index: usize) -> JsonView {
    JsonView::UInt(index as u64)
}

/// A point in time, in milliseconds.
pub open spec fn time_json(time: Timestamp) -> JsonView {
    JsonView::Millis(time.nanos)
}

/// A point in time that may be unknown.
pub open spec fn optional_time_json(time: Option<Timestamp>) -> JsonView {
    match time {
        Some(time) => time_json(time),
        None => JsonView::Null,
    }
}

/// A point in time that may be unknown.
pub fn optional_time(time: Option<Timestamp>) -> (json: Json)
    ensures
        json@ == optional_time_json(time),
{
    match time {
        Some(time) => Json::Millis(time.nanos),
        None => Json::Null,
    }
}

/// The number of rows.
pub open spec fn length_json(n: nat) -> JsonView {
    JsonView::UInt(n as u64)
}

/// The resource of a function. A function without one has the number -1 there.
pub open spec fn func_resource_json(row: FuncRow) -> JsonView {
    match row.resource {
        Some(resource) => index_json(resource),
        None => JsonView::Int((-1) as i64),
    }
}

fn func_name_cell(row: &FuncRow) -> (cell: Json)
    ensures
        cell@ == index_json(row.name),
{
    Json::UInt(row.name as u64)
}

fn func_resource_cell(row: &FuncRow) -> (cell: Json)
    ensures
        cell@ == func_resource_json(*row),
{
    match row.resource {
        Some(resource) => Json::UInt(resource as u64),
        None => Json::Int(-1),
    }
}

/// The functions.
pub open spec fn func_table_json(tables: TablesView) -> JsonView {
    JsonView::Object(
        seq![
            ("length"@, length_json(tables.funcs.len())),
            ("name"@, column_json(tables.funcs, |row: FuncRow| index_json(row.name))),
            ("isJS"@, repeated_json(tables.funcs.len(), JsonView::Bool(false))),
            ("relevantForJS"@, repeated_json(tables.funcs.len(), JsonView::Bool(false))),
            ("resource"@, column_json(tables.funcs, |row: FuncRow| func_resource_json(row))),
            ("fileName"@, repeated_json(tables.funcs.len(), JsonView::Null)),
            ("lineNumber"@, repeated_json(tables.funcs.len(), JsonView::Null)),
            ("columnNumber"@, repeated_json(tables.funcs.len(), JsonView::Null)),
        ],
    )
}

/// The functions.
pub fn func_table(tables: &StackTables) -> (json: Json)
    ensures
        json@ == func_table_json(tables@),
{
    let rows: &Vec<FuncRow> = tables.funcs();
    let mut object: ObjectBuilder = ObjectBuilder::new();
    object.entry("length", Json::UInt(rows.len() as u64));
    object.entry("name", column(rows, func_name_cell, Ghost(|row: FuncRow| index_json(row.name))));
    object.entry("isJS", repeated(rows.len(), Json::Bool(false)));
    object.entry("relevantForJS", repeated(rows.len(), Json::Bool(false)));
    object.entry(
        "resource",
        column(rows, func_resource_cell, Ghost(|row: FuncRow| func_resource_json(row))),
    );
    object.entry("fileName", repeated(rows.len(), Json::Null));
    object.entry("lineNumber", repeated(rows.len(), Json::Null));
    object.entry("columnNumber", repeated(rows.len(), Json::Null));
    assert(object@ =~= func_table_json(tables@)->Object_0);
    object.build()
}

fn resource_lib_cell(row: &ResourceRow) -> (cell: Json)
    ensures
        cell@ == index_json(row.lib),
{
    Json::UInt(row.lib as u64)
}

fn resource_name_cell(row: &ResourceRow) -> (cell: Json)
    ensures
        cell@ == index_json(row.name),
{
    Json::UInt(row.name as u64)
}

/// The libraries that functions belong to. All are resources of the type 1, a library.
pub open spec fn resource_table_json(tables: TablesView) -> JsonView {
    JsonView::Object(
        seq![
            ("length"@, length_json(tables.resources.len())),
            ("lib"@, column_json(tables.resources, |row: ResourceRow| index_json(row.lib))),
            ("name"@, column_json(tables.resources, |row: ResourceRow| index_json(row.name))),
            ("host"@, repeated_json(tables.resources.len(), JsonView::Null)),
            ("type"@, repeated_json(tables.resources.len(), JsonView::UInt(1))),
        ],
    )
}

/// The libraries that functions belong to. All are resources of the type 1, a library.
pub fn resource_table(tables: &StackTables) -> (json: Json)
    ensures
        json@ == resource_table_json(tables@),
{
    let rows: &Vec<ResourceRow> = tables.resources();
    let mut object: ObjectBuilder = ObjectBuilder::new();
    object.entry("length", Json::UInt(rows.len() as u64));
    object.entry(
        "lib",
        column(rows, resource_lib_cell, Ghost(|row: ResourceRow| index_json(row.lib))),
    );
    object.entry(
        "name",
        column(rows, resource_name_cell, Ghost(|row: ResourceRow| index_json(row.name))),
    );
    object.entry("host", repeated(rows.len(), Json::Null));
    object.entry("type", repeated(rows.len(), Json::UInt(1)));
    assert(object@ =~= resource_table_json(tables@)->Object_0);
    object.build()
}

/// The number of a subcategory. Without a subcategory it is that of "Other", which comes after
/// those that were added to the category.
pub open spec fn subcategory_json(
    categories: Seq<CategoryView>,
    pair: CategoryPairHandle,
) -> JsonView {
    match pair.1 {
        Some(subcategory) => JsonView::UInt(subcategory.0 as u64),
        None => if pair.0.0 < categories.len() {
            length_json(categories[pair.0.0 as int].subcategories.len())
        } else {
            JsonView::UInt(0)
        },
    }
}

/// What the categories of a profile say.
pub open spec fn categories_view(categories: Seq<Category>) -> Seq<CategoryView> {
    categories.map_values(|category: Category| category@)
}

fn category_cell(row: &CategoryPairHandle) -> (cell: Json)
    ensures
        cell@ == JsonView::UInt(row.0.0 as u64),
{
    Json::UInt(row.0.0 as u64)
}

/// The numbers of the subcategories.
fn subcategory_column(categories: &Vec<Category>, pairs: &Vec<CategoryPairHandle>) -> (json: Json)
    ensures
        json@ == column_json(
            pairs@,
            |pair: CategoryPairHandle| subcategory_json(categories_view(categories@), pair),
        ),
{
    let ghost cell = |pair: CategoryPairHandle|
        subcategory_json(categories_view(categories@), pair);
    let mut cells: Vec<Json> = Vec::new();
    let mut i: usize = 0;
    while i < pairs.len()
        invariant
            i <= pairs@.len(),
            cell == (|pair: CategoryPairHandle|
                subcategory_json(categories_view(categories@), pair)),
            items_view(cells@) == pairs@.take(i as int).map_values(cell),
        decreases pairs@.len() - i,
    {
        let pair: CategoryPairHandle = pairs[i];
        let category: usize = pair.0.0 as usize;
        let made: Json = match pair.1 {
            Some(subcategory) => Json::UInt(subcategory.0 as u64),
            None => if category < categories.len() {
                Json::UInt(categories[category].subcategories.len() as u64)
            } else {
                Json::UInt(0)
            },
        };
        proof {
            assert(made@ == cell(pair));
            assert(items_view(cells@.push(made)) =~= items_view(cells@).push(made@));
            assert(pairs@.take(i + 1).map_values(cell) =~= pairs@.take(i as int).map_values(
                cell,
            ).push(cell(pair)));
        }
        cells.push(made);
        i = i + 1;
    }
    assert(pairs@.take(i as int) =~= pairs@);
    list(cells)
}

/// The category pairs of the frames.
pub open spec fn frame_pairs(tables: TablesView) -> Seq<CategoryPairHandle> {
    tables.frames.map_values(|frame: InternalFrame| frame.category_pair)
}

fn category_pairs_of_frames(frames: &Vec<InternalFrame>) -> (pairs: Vec<CategoryPairHandle>)
    ensures
        pairs@ == frames@.map_values(|frame: InternalFrame| frame.category_pair),
{
    let mut pairs: Vec<CategoryPairHandle> = Vec::new();
    let mut i: usize = 0;
    while i < frames.len()
        invariant
            i <= frames@.len(),
            pairs@.len() == i,
            forall|k: int| 0 <= k < i ==> pairs@[k] == (#[trigger] frames@[k]).category_pair,
        decreases frames@.len() - i,
    {
        pairs.push(frames[i].category_pair);
        i = i + 1;
    }
    pairs
}

/// The category pairs of the stacks: those of their frames.
pub open spec fn stack_pairs(tables: TablesView) -> Seq<CategoryPairHandle> {
    tables.stacks.map_values(
        |row: StackRow| tables.frames[row.frame as int].category_pair,
    )
}

/// All frames of the stacks exist.
pub open spec fn stacks_have_frames(tables: TablesView) -> bool {
    forall|i: int|
        0 <= i < tables.stacks.len() ==> (#[trigger] tables.stacks[i]).frame < tables.frames.len()
}

fn category_pairs_of_stacks(tables: &StackTables) -> (pairs: Vec<CategoryPairHandle>)
    requires
        stacks_have_frames(tables@),
    ensures
        pairs@ == stack_pairs(tables@),
{
    let frames: &Vec<InternalFrame> = tables.frames();
    let stacks: &Vec<StackRow> = tables.stacks();
    let mut pairs: Vec<CategoryPairHandle> = Vec::new();
    let mut i: usize = 0;
    while i < stacks.len()
        invariant
            i <= stacks@.len(),
            frames@ == tables@.frames,
            stacks@ == tables@.stacks,
            stacks_have_frames(tables@),
            pairs@.len() == i,
            forall|k: int| 0 <= k < i ==> #[trigger] pairs@[k] == stack_pairs(tables@)[k],
        decreases stacks@.len() - i,
    {
        assert(tables@.stacks[i as int].frame < tables@.frames.len());
        pairs.push(frames[stacks[i].frame].category_pair);
        i = i + 1;
    }
    pairs
}

/// The relative address of a frame. A frame that is in no known library has the number -1 there.
pub open spec fn frame_address_json(frame: InternalFrame) -> JsonView {
    match frame.location {
        InternalFrameLocation::AddressInLib(relative, _) => JsonView::UInt(relative as u64),
        _ => JsonView::Int((-1) as i64),
    }
}

fn frame_address_cell(row: &InternalFrame) -> (cell: Json)
    ensures
        cell@ == frame_address_json(*row),
{
    match row.location {
        InternalFrameLocation::AddressInLib(relative, _) => Json::UInt(relative as u64),
        _ => Json::Int(-1),
    }
}

fn index_cell(row: &usize) -> (cell: Json)
    ensures
        cell@ == index_json(*row),
{
    Json::UInt(*row as u64)
}

/// The frames.
pub open spec fn frame_table_json(tables: TablesView, categories: Seq<CategoryView>) -> JsonView {
    JsonView::Object(
        seq![
            ("length"@, length_json(tables.frames.len())),
            ("address"@, column_json(tables.frames, |row: InternalFrame| frame_address_json(row))),
            ("inlineDepth"@, repeated_json(tables.frames.len(), JsonView::UInt(0))),
            (
                "category"@,
                column_json(
                    frame_pairs(tables),
                    |pair: CategoryPairHandle| JsonView::UInt(pair.0.0 as u64),
                ),
            ),
            (
                "subcategory"@,
                column_json(
                    frame_pairs(tables),
                    |pair: CategoryPairHandle| subcategory_json(categories, pair),
                ),
            ),
            ("func"@, column_json(tables.frame_funcs, |func: usize| index_json(func))),
            ("nativeSymbol"@, repeated_json(tables.frames.len(), JsonView::Null)),
            ("innerWindowID"@, repeated_json(tables.frames.len(), JsonView::Null)),
            ("implementation"@, repeated_json(tables.frames.len(), JsonView::Null)),
            ("line"@, repeated_json(tables.frames.len(), JsonView::Null)),
            ("column"@, repeated_json(tables.frames.len(), JsonView::Null)),
            ("optimizations"@, repeated_json(tables.frames.len(), JsonView::Null)),
        ],
    )
}

/// The frames.
pub fn frame_table(tables: &StackTables, categories: &Vec<Category>) -> (json: Json)
    ensures
        json@ == frame_table_json(tables@, categories_view(categories@)),
{
    let rows: &Vec<InternalFrame> = tables.frames();
    let pairs: Vec<CategoryPairHandle> = category_pairs_of_frames(rows);
    let mut object: ObjectBuilder = ObjectBuilder::new();
    object.entry("length", Json::UInt(rows.len() as u64));
    object.entry(
        "address",
        column(rows, frame_address_cell, Ghost(|row: InternalFrame| frame_address_json(row))),
    );
    object.entry("inlineDepth", repeated(rows.len(), Json::UInt(0)));
    object.entry(
        "category",
        column(
            &pairs,
            category_cell,
            Ghost(|pair: CategoryPairHandle| JsonView::UInt(pair.0.0 as u64)),
        ),
    );
    object.entry("subcategory", subcategory_column(categories, &pairs));
    object.entry(
        "func",
        column(tables.frame_funcs(), index_cell, Ghost(|func: usize| index_json(func))),
    );
    object.entry("nativeSymbol", repeated(rows.len(), Json::Null));
    object.entry("innerWindowID", repeated(rows.len(), Json::Null));
    object.entry("implementation", repeated(rows.len(), Json::Null));
    object.entry("line", repeated(rows.len(), Json::Null));
    object.entry("column", repeated(rows.len(), Json::Null));
    object.entry("optimizations", repeated(rows.len(), Json::Null));
    assert(object@ =~= frame_table_json(tables@, categories_view(categories@))->Object_0);
    object.build()
}

fn stack_prefix_cell(row: &StackRow) -> (cell: Json)
    ensures
        cell@ == json_optional_index(row.prefix),
{
    optional_index(row.prefix)
}

fn stack_frame_cell(row: &StackRow) -> (cell: Json)
    ensures
        cell@ == index_json(row.frame),
{
    Json::UInt(row.frame as u64)
}

/// The stacks.
pub open spec fn stack_table_json(tables: TablesView, categories: Seq<CategoryView>) -> JsonView {
    JsonView::Object(
        seq![
            ("length"@, length_json(tables.stacks.len())),
            (
                "prefix"@,
                column_json(tables.stacks, |row: StackRow| json_optional_index(row.prefix)),
            ),
            ("frame"@, column_json(tables.stacks, |row: StackRow| index_json(row.frame))),
            (
                "category"@,
                column_json(
                    stack_pairs(tables),
                    |pair: CategoryPairHandle| JsonView::UInt(pair.0.0 as u64),
                ),
            ),
            (
                "subcategory"@,
                column_json(
                    stack_pairs(tables),
                    |pair: CategoryPairHandle| subcategory_json(categories, pair),
                ),
            ),
        ],
    )
}

/// The stacks.
pub fn stack_table(tables: &StackTables, categories: &Vec<Category>) -> (json: Json)
    requires
        stacks_have_frames(tables@),
    ensures
        json@ == stack_table_json(tables@, categories_view(categories@)),
{
    let rows: &Vec<StackRow> = tables.stacks();
    let pairs: Vec<CategoryPairHandle> = category_pairs_of_stacks(tables);
    let mut object: ObjectBuilder = ObjectBuilder::new();
    object.entry("length", Json::UInt(rows.len() as u64));
    object.entry(
        "prefix",
        column(rows, stack_prefix_cell, Ghost(|row: StackRow| json_optional_index(row.prefix))),
    );
    object.entry(
        "frame",
        column(rows, stack_frame_cell, Ghost(|row: StackRow| index_json(row.frame))),
    );
    object.entry(
        "category",
        column(
            &pairs,
            category_cell,
            Ghost(|pair: CategoryPairHandle| JsonView::UInt(pair.0.0 as u64)),
        ),
    );
    object.entry("subcategory", subcategory_column(categories, &pairs));
    assert(object@ =~= stack_table_json(tables@, categories_view(categories@))->Object_0);
    object.build()
}

/// The strings.
pub open spec fn string_array_json(strings: Seq<Seq<char>>) -> JsonView {
    column_json(strings, |s: Seq<char>| JsonView::Text(s))
}

/// The strings.
pub fn string_array(strings: &StringTable) -> (json: Json)
    ensures
        json@ == string_array_json(strings@),
{
    let ghost cell = |s: Seq<char>| JsonView::Text(s);
    let mut cells: Vec<Json> = Vec::new();
    let mut i: usize = 0;
    while i < strings.len()
        invariant
            i <= strings@.len(),
            cell == (|s: Seq<char>| JsonView::Text(s)),
            items_view(cells@) == strings@.take(i as int).map_values(cell),
        decreases strings@.len() - i,
    {
        let made: Json = json_text(strings.get(i));
        proof {
            assert(made@ == cell(strings@[i as int]));
            assert(items_view(cells@.push(made)) =~= items_view(cells@).push(made@));
            assert(strings@.take(i + 1).map_values(cell) =~= strings@.take(i as int).map_values(
                cell,
            ).push(cell(strings@[i as int])));
        }
        cells.push(made);
        i = i + 1;
    }
    assert(strings@.take(i as int) =~= strings@);
    list(cells)
}

fn sample_stack_cell(row: &SampleRow) -> (cell: Json)
    ensures
        cell@ == json_optional_index(row.stack),
{
    optional_index(row.stack)
}

fn sample_time_cell(row: &SampleRow) -> (cell: Json)
    ensures
        cell@ == time_json(row.timestamp),
{
    Json::Millis(row.timestamp.nanos)
}

fn sample_weight_cell(row: &SampleRow) -> (cell: Json)
    ensures
        cell@ == JsonView::Int(row.weight as i64),
{
    Json::Int(row.weight as i64)
}

fn sample_cpu_cell(row: &SampleRow) -> (cell: Json)
    ensures
        cell@ == JsonView::UInt(row.cpu_delta.micros),
{
    Json::UInt(row.cpu_delta.micros)
}

/// The samples.
pub open spec fn sample_table_json(samples: Seq<SampleRow>) -> JsonView {
    JsonView::Object(
        seq![
            ("length"@, length_json(samples.len())),
            ("stack"@, column_json(samples, |row: SampleRow| json_optional_index(row.stack))),
            ("time"@, column_json(samples, |row: SampleRow| time_json(row.timestamp))),
            ("weight"@, column_json(samples, |row: SampleRow| JsonView::Int(row.weight as i64))),
            ("weightType"@, JsonView::Text("samples"@)),
            (
                "threadCPUDelta"@,
                column_json(samples, |row: SampleRow| JsonView::UInt(row.cpu_delta.micros)),
            ),
        ],
    )
}

/// The samples.
pub fn sample_table(samples: &Vec<SampleRow>) -> (json: Json)
    ensures
        json@ == sample_table_json(samples@),
{
    let rows: &Vec<SampleRow> = samples;
    let mut object: ObjectBuilder = ObjectBuilder::new();
    object.entry("length", Json::UInt(rows.len() as u64));
    object.entry(
        "stack",
        column(rows, sample_stack_cell, Ghost(|row: SampleRow| json_optional_index(row.stack))),
    );
    object.entry(
        "time",
        column(rows, sample_time_cell, Ghost(|row: SampleRow| time_json(row.timestamp))),
    );
    object.entry(
        "weight",
        column(rows, sample_weight_cell, Ghost(|row: SampleRow| JsonView::Int(row.weight as i64))),
    );
    object.entry("weightType", json_text("samples"));
    object.entry(
        "threadCPUDelta",
        column(rows, sample_cpu_cell, Ghost(|row: SampleRow| JsonView::UInt(row.cpu_delta.micros))),
    );
    assert(object@ =~= sample_table_json(samples@)->Object_0);
    object.build()
}

/// What the markers of a thread say.
pub open spec fn markers_view(markers: Seq<MarkerRow>) -> Seq<MarkerView> {
    markers.map_values(|row: MarkerRow| row@)
}

fn marker_data_cell(row: &MarkerRow) -> (cell: Json)
    ensures
        cell@ == row@.data,
{
    row.data.duplicate()
}

fn marker_end_cell(row: &MarkerRow) -> (cell: Json)
    ensures
        cell@ == optional_time_json(row@.timing.end()),
{
    optional_time(row.timing.parts().1)
}

fn marker_name_cell(row: &MarkerRow) -> (cell: Json)
    ensures
        cell@ == index_json(row@.name),
{
    Json::UInt(row.name as u64)
}

fn marker_phase_cell(row: &MarkerRow) -> (cell: Json)
    ensures
        cell@ == JsonView::UInt(row@.timing.phase()),
{
    Json::UInt(row.timing.parts().2)
}

fn marker_start_cell(row: &MarkerRow) -> (cell: Json)
    ensures
        cell@ == optional_time_json(row@.timing.start()),
{
    optional_time(row.timing.parts().0)
}

/// The markers. All are in the category that every profile starts with.
pub open spec fn marker_table_json(markers: Seq<MarkerView>) -> JsonView {
    JsonView::Object(
        seq![
            ("length"@, length_json(markers.len())),
            ("category"@, repeated_json(markers.len(), JsonView::UInt(0))),
            ("data"@, column_json(markers, |row: MarkerView| row.data)),
            (
                "endTime"@,
                column_json(markers, |row: MarkerView| optional_time_json(row.timing.end())),
            ),
            ("name"@, column_json(markers, |row: MarkerView| index_json(row.name))),
            ("phase"@, column_json(markers, |row: MarkerView| JsonView::UInt(row.timing.phase()))),
            (
                "startTime"@,
                column_json(markers, |row: MarkerView| optional_time_json(row.timing.start())),
            ),
        ],
    )
}

/// The markers. All are in the category that every profile starts with.
pub fn marker_table(markers: &Vec<MarkerRow>) -> (json: Json)
    ensures
        json@ == marker_table_json(markers_view(markers@)),
{
    let rows: &Vec<MarkerRow> = markers;
    let data: Json = column(rows, marker_data_cell, Ghost(|row: MarkerRow| row@.data));
    assert(data@->List_0 =~= markers_view(rows@).map_values(|row: MarkerView| row.data));
    let end: Json = column(
        rows,
        marker_end_cell,
        Ghost(|row: MarkerRow| optional_time_json(row@.timing.end())),
    );
    assert(end@->List_0 =~= markers_view(rows@).map_values(
        |row: MarkerView| optional_time_json(row.timing.end()),
    ));
    let name: Json = column(rows, marker_name_cell, Ghost(|row: MarkerRow| index_json(row@.name)));
    assert(name@->List_0 =~= markers_view(rows@).map_values(
        |row: MarkerView| index_json(row.name),
    ));
    let phase: Json = column(
        rows,
        marker_phase_cell,
        Ghost(|row: MarkerRow| JsonView::UInt(row@.timing.phase())),
    );
    assert(phase@->List_0 =~= markers_view(rows@).map_values(
        |row: MarkerView| JsonView::UInt(row.timing.phase()),
    ));
    let start: Json = column(
        rows,
        marker_start_cell,
        Ghost(|row: MarkerRow| optional_time_json(row@.timing.start())),
    );
    assert(start@->List_0 =~= markers_view(rows@).map_values(
        |row: MarkerView| optional_time_json(row.timing.start()),
    ));
    let mut object: ObjectBuilder = ObjectBuilder::new();
    object.entry("length", Json::UInt(rows.len() as u64));
    object.entry("category", repeated(rows.len(), Json::UInt(0)));
    object.entry("data", data);
    object.entry("endTime", end);
    object.entry("name", name);
    object.entry("phase", phase);
    object.entry("startTime", start);
    assert(object@ =~= marker_table_json(markers_view(markers@))->Object_0);
    object.build()
}

/// A frame without a subcategory is shown in the subcategory "Other" of its category, and one
/// with a subcategory in that one.
pub proof fn subcategories_are_shown(categories: Seq<CategoryView>, pair: CategoryPairHandle)
    requires
        pair.0.0 < categories.len(),
        categories[pair.0.0 as int].subcategories.len() <= u64::MAX,
        pair.1 matches Some(subcategory) ==> subcategory.0
            < categories[pair.0.0 as int].subcategories.len(),
    ensures
        ({
            let names = categories[pair.0.0 as int].subcategories;
            let shown = subcategories_json(names)->List_0;
            &&& subcategory_json(categories, pair) matches JsonView::UInt(n) && n < shown.len()
                && shown[n as int] == JsonView::Text(
                match pair.1 {
                    Some(subcategory) => names[subcategory.0 as int],
                    None => "Other"@,
                },
            )
        }),
{
}

/// The length of a list.
pub open spec fn has_length(json: JsonView, n: nat) -> bool {
    json matches JsonView::List(items) && items.len() == n
}

/// All columns of the frame table and of the stack table have as many cells as the table has rows.
pub proof fn columns_have_equal_lengths(tables: TablesView, categories: Seq<CategoryView>)
    requires
        tables.frame_funcs.len() == tables.frames.len(),
    ensures
        forall|i: int|
            1 <= i < frame_table_json(tables, categories)->Object_0.len() ==> has_length(
                (#[trigger] frame_table_json(tables, categories)->Object_0[i]).1,
                tables.frames.len(),
            ),
        forall|i: int|
            1 <= i < stack_table_json(tables, categories)->Object_0.len() ==> has_length(
                (#[trigger] stack_table_json(tables, categories)->Object_0[i]).1,
                tables.stacks.len(),
            ),
        forall|i: int|
            1 <= i < func_table_json(tables)->Object_0.len() ==> has_length(
                (#[trigger] func_table_json(tables)->Object_0[i]).1,
                tables.funcs.len(),
            ),
        forall|i: int|
            1 <= i < resource_table_json(tables)->Object_0.len() ==> has_length(
                (#[trigger] resource_table_json(tables)->Object_0[i]).1,
                tables.resources.len(),
            ),
{
}

/// The samples in the profile JSON: a row for each sample, with exactly the time, the stack, the
/// weight and the CPU time that it was recorded with. Different times have different cells, and
/// later times greater ones.
pub proof fn sample_columns_hold_the_samples(samples: Seq<SampleRow>)
    ensures
        sample_table_json(samples) matches JsonView::Object(entries) && {
            &&& entries.len() == 6
            &&& entries[0] == ("length"@, JsonView::UInt(samples.len() as u64))
            &&& entries[1].0 == "stack"@
            &&& entries[1].1 matches JsonView::List(cells) && cells.len() == samples.len()
                && forall|i: int|
                0 <= i < samples.len() ==> {
                    let cell = #[trigger] cells[i];
                    &&& samples[i].stack matches Some(stack) ==> cell
                        == JsonView::UInt(stack as u64)
                    &&& samples[i].stack is None ==> cell == JsonView::Null
                }
            &&& entries[2].0 == "time"@
            &&& entries[2].1 matches JsonView::List(cells) && cells.len() == samples.len()
                && forall|i: int|
                0 <= i < samples.len() ==> #[trigger] cells[i]
                    == JsonView::Millis(samples[i].timestamp.nanos)
            &&& entries[3].0 == "weight"@
            &&& entries[3].1 matches JsonView::List(cells) && cells.len() == samples.len()
                && forall|i: int|
                0 <= i < samples.len() ==> #[trigger] cells[i]
                    == JsonView::Int(samples[i].weight as i64)
            &&& entries[4] == ("weightType"@, JsonView::Text("samples"@))
            &&& entries[5].0 == "threadCPUDelta"@
            &&& entries[5].1 matches JsonView::List(cells) && cells.len() == samples.len()
                && forall|i: int|
                0 <= i < samples.len() ==> #[trigger] cells[i]
                    == JsonView::UInt(samples[i].cpu_delta.micros)
        },
{
}

/// The markers in the profile JSON: a row for each marker, with its data, its name and exactly the
/// times at which it starts and ends, where it does.
pub proof fn marker_columns_hold_the_markers(markers: Seq<MarkerView>)
    ensures
        marker_table_json(markers) matches JsonView::Object(entries) && {
            &&& entries.len() == 7
            &&& entries[0] == ("length"@, JsonView::UInt(markers.len() as u64))
            &&& entries[1].0 == "category"@
            &&& entries[1].1 matches JsonView::List(cells) && cells.len() == markers.len()
                && forall|i: int|
                0 <= i < markers.len() ==> #[trigger] cells[i] == JsonView::UInt(0)
            &&& entries[2].0 == "data"@
            &&& entries[2].1 matches JsonView::List(cells) && cells.len() == markers.len()
                && forall|i: int|
                0 <= i < markers.len() ==> #[trigger] cells[i] == markers[i].data
            &&& entries[3].0 == "endTime"@
            &&& entries[3].1 matches JsonView::List(cells) && cells.len() == markers.len()
                && forall|i: int|
                0 <= i < markers.len() ==> {
                    let cell = #[trigger] cells[i];
                    let timing = markers[i].timing;
                    &&& timing is Instant ==> cell == JsonView::Null
                    &&& timing matches MarkerTiming::Interval(_, end) ==> cell
                        == JsonView::Millis(end.nanos)
                    &&& timing is IntervalStart ==> cell == JsonView::Null
                    &&& timing matches MarkerTiming::IntervalEnd(end) ==> cell
                        == JsonView::Millis(end.nanos)
                }
            &&& entries[4].0 == "name"@
            &&& entries[4].1 matches JsonView::List(cells) && cells.len() == markers.len()
                && forall|i: int|
                0 <= i < markers.len() ==> #[trigger] cells[i]
                    == JsonView::UInt(markers[i].name as u64)
            &&& entries[5].0 == "phase"@
            &&& entries[5].1 matches JsonView::List(cells) && cells.len() == markers.len()
                && forall|i: int|
                0 <= i < markers.len() ==> {
                    let cell = #[trigger] cells[i];
                    let timing = markers[i].timing;
                    &&& timing is Instant ==> cell == JsonView::UInt(0)
                    &&& timing is Interval ==> cell == JsonView::UInt(1)
                    &&& timing is IntervalStart ==> cell == JsonView::UInt(2)
                    &&& timing is IntervalEnd ==> cell == JsonView::UInt(3)
                }
            &&& entries[6].0 == "startTime"@
            &&& entries[6].1 matches JsonView::List(cells) && cells.len() == markers.len()
                && forall|i: int|
                0 <= i < markers.len() ==> {
                    let cell = #[trigger] cells[i];
                    let timing = markers[i].timing;
                    &&& timing matches MarkerTiming::Instant(start) ==> cell
                        == JsonView::Millis(start.nanos)
                    &&& timing matches MarkerTiming::Interval(start, _) ==> cell
                        == JsonView::Millis(start.nanos)
                    &&& timing matches MarkerTiming::IntervalStart(start) ==> cell
                        == JsonView::Millis(start.nanos)
                    &&& timing is IntervalEnd ==> cell == JsonView::Null
                }
        },
{
}

/// The functions in the profile JSON: a row for each, with its name and the library that it belongs
/// to, or -1.
pub proof fn func_columns_hold_the_functions(tables: TablesView)
    ensures
        func_table_json(tables) matches JsonView::Object(entries) && {
            &&& entries.len() == 8
            &&& entries[0] == ("length"@, JsonView::UInt(tables.funcs.len() as u64))
            &&& entries[1].0 == "name"@
            &&& entries[1].1 matches JsonView::List(cells) && cells.len() == tables.funcs.len()
                && forall|i: int|
                0 <= i < tables.funcs.len() ==> #[trigger] cells[i]
                    == JsonView::UInt(tables.funcs[i].name as u64)
            &&& entries[2].0 == "isJS"@
            &&& entries[2].1 matches JsonView::List(cells) && cells.len() == tables.funcs.len()
                && forall|i: int|
                0 <= i < tables.funcs.len() ==> #[trigger] cells[i] == JsonView::Bool(false)
            &&& entries[3].0 == "relevantForJS"@
            &&& entries[3].1 matches JsonView::List(cells) && cells.len() == tables.funcs.len()
                && forall|i: int|
                0 <= i < tables.funcs.len() ==> #[trigger] cells[i] == JsonView::Bool(false)
            &&& entries[4].0 == "resource"@
            &&& entries[4].1 matches JsonView::List(cells) && cells.len() == tables.funcs.len()
                && forall|i: int|
                0 <= i < tables.funcs.len() ==> {
                    let cell = #[trigger] cells[i];
                    let resource = tables.funcs[i].resource;
                    &&& resource matches Some(resource) ==> cell == JsonView::UInt(resource as u64)
                    &&& resource is None ==> cell == JsonView::Int((-1) as i64)
                }
            &&& entries[5].0 == "fileName"@
            &&& entries[5].1 matches JsonView::List(cells) && cells.len() == tables.funcs.len()
                && forall|i: int|
                0 <= i < tables.funcs.len() ==> #[trigger] cells[i] == JsonView::Null
            &&& entries[6].0 == "lineNumber"@
            &&& entries[6].1 matches JsonView::List(cells) && cells.len() == tables.funcs.len()
                && forall|i: int|
                0 <= i < tables.funcs.len() ==> #[trigger] cells[i] == JsonView::Null
            &&& entries[7].0 == "columnNumber"@
            &&& entries[7].1 matches JsonView::List(cells) && cells.len() == tables.funcs.len()
                && forall|i: int|
                0 <= i < tables.funcs.len() ==> #[trigger] cells[i] == JsonView::Null
        },
{
}

/// The libraries of the functions in the profile JSON.
pub proof fn resource_columns_hold_the_libraries(tables: TablesView)
    ensures
        resource_table_json(tables) matches JsonView::Object(entries) && {
            &&& entries.len() == 5
            &&& entries[0] == ("length"@, JsonView::UInt(tables.resources.len() as u64))
            &&& entries[1].0 == "lib"@
            &&& entries[1].1 matches JsonView::List(cells) && cells.len() == tables.resources.len()
                && forall|i: int|
                0 <= i < tables.resources.len() ==> #[trigger] cells[i]
                    == JsonView::UInt(tables.resources[i].lib as u64)
            &&& entries[2].0 == "name"@
            &&& entries[2].1 matches JsonView::List(cells) && cells.len() == tables.resources.len()
                && forall|i: int|
                0 <= i < tables.resources.len() ==> #[trigger] cells[i]
                    == JsonView::UInt(tables.resources[i].name as u64)
            &&& entries[3].0 == "host"@
            &&& entries[3].1 matches JsonView::List(cells) && cells.len() == tables.resources.len()
                && forall|i: int|
                0 <= i < tables.resources.len() ==> #[trigger] cells[i] == JsonView::Null
            &&& entries[4].0 == "type"@
            &&& entries[4].1 matches JsonView::List(cells) && cells.len() == tables.resources.len()
                && forall|i: int|
                0 <= i < tables.resources.len() ==> #[trigger] cells[i] == JsonView::UInt(1)
        },
{
}

/// The frames in the profile JSON: a row for each, with its relative address in a library or -1,
/// its category and subcategory, and its function.
pub proof fn frame_columns_hold_the_frames(tables: TablesView, categories: Seq<CategoryView>)
    requires
        tables.frame_funcs.len() == tables.frames.len(),
    ensures
        frame_table_json(tables, categories) matches JsonView::Object(entries) && {
            &&& entries.len() == 12
            &&& entries[0] == ("length"@, JsonView::UInt(tables.frames.len() as u64))
            &&& entries[1].0 == "address"@
            &&& entries[1].1 matches JsonView::List(cells) && cells.len() == tables.frames.len()
                && forall|i: int|
                0 <= i < tables.frames.len() ==> {
                    let cell = #[trigger] cells[i];
                    let location = tables.frames[i].location;
                    &&& location matches InternalFrameLocation::AddressInLib(relative, _) ==> cell
                        == JsonView::UInt(relative as u64)
                    &&& !(location is AddressInLib) ==> cell == JsonView::Int((-1) as i64)
                }
            &&& entries[2].0 == "inlineDepth"@
            &&& entries[2].1 matches JsonView::List(cells) && cells.len() == tables.frames.len()
                && forall|i: int|
                0 <= i < tables.frames.len() ==> #[trigger] cells[i] == JsonView::UInt(0)
            &&& entries[3].0 == "category"@
            &&& entries[3].1 matches JsonView::List(cells) && cells.len() == tables.frames.len()
                && forall|i: int|
                0 <= i < tables.frames.len() ==> #[trigger] cells[i]
                    == JsonView::UInt(tables.frames[i].category_pair.0.0 as u64)
            &&& entries[4].0 == "subcategory"@
            &&& entries[4].1 matches JsonView::List(cells) && cells.len() == tables.frames.len()
                && forall|i: int|
                0 <= i < tables.frames.len() ==> {
                    let cell = #[trigger] cells[i];
                    let pair = tables.frames[i].category_pair;
                    &&& pair.1 matches Some(subcategory) ==> cell
                        == JsonView::UInt(subcategory.0 as u64)
                    &&& pair.1 is None && pair.0.0 < categories.len() ==> cell == JsonView::UInt(
                            categories[pair.0.0 as int].subcategories.len() as u64,
                        )
                }
            &&& entries[5].0 == "func"@
            &&& entries[5].1 matches JsonView::List(cells) && cells.len() == tables.frames.len()
                && forall|i: int|
                0 <= i < tables.frames.len() ==> #[trigger] cells[i]
                    == JsonView::UInt(tables.frame_funcs[i] as u64)
            &&& entries[6].0 == "nativeSymbol"@
            &&& entries[6].1 matches JsonView::List(cells) && cells.len() == tables.frames.len()
                && forall|i: int|
                0 <= i < tables.frames.len() ==> #[trigger] cells[i] == JsonView::Null
            &&& entries[7].0 == "innerWindowID"@
            &&& entries[7].1 matches JsonView::List(cells) && cells.len() == tables.frames.len()
                && forall|i: int|
                0 <= i < tables.frames.len() ==> #[trigger] cells[i] == JsonView::Null
            &&& entries[8].0 == "implementation"@
            &&& entries[8].1 matches JsonView::List(cells) && cells.len() == tables.frames.len()
                && forall|i: int|
                0 <= i < tables.frames.len() ==> #[trigger] cells[i] == JsonView::Null
            &&& entries[9].0 == "line"@
            &&& entries[9].1 matches JsonView::List(cells) && cells.len() == tables.frames.len()
                && forall|i: int|
                0 <= i < tables.frames.len() ==> #[trigger] cells[i] == JsonView::Null
            &&& entries[10].0 == "column"@
            &&& entries[10].1 matches JsonView::List(cells) && cells.len() == tables.frames.len()
                && forall|i: int|
                0 <= i < tables.frames.len() ==> #[trigger] cells[i] == JsonView::Null
            &&& entries[11].0 == "optimizations"@
            &&& entries[11].1 matches JsonView::List(cells) && cells.len() == tables.frames.len()
                && forall|i: int|
                0 <= i < tables.frames.len() ==> #[trigger] cells[i] == JsonView::Null
        },
{
}

/// The stacks in the profile JSON: a row for each, with the stack of its caller where it has one,
/// its frame, and the category and subcategory of that frame.
pub proof fn stack_columns_hold_the_stacks(tables: TablesView, categories: Seq<CategoryView>)
    ensures
        stack_table_json(tables, categories) matches JsonView::Object(entries) && {
            &&& entries.len() == 5
            &&& entries[0] == ("length"@, JsonView::UInt(tables.stacks.len() as u64))
            &&& entries[1].0 == "prefix"@
            &&& entries[1].1 matches JsonView::List(cells) && cells.len() == tables.stacks.len()
                && forall|i: int|
                0 <= i < tables.stacks.len() ==> {
                    let cell = #[trigger] cells[i];
                    let prefix = tables.stacks[i].prefix;
                    &&& prefix matches Some(prefix) ==> cell == JsonView::UInt(prefix as u64)
                    &&& prefix is None ==> cell == JsonView::Null
                }
            &&& entries[2].0 == "frame"@
            &&& entries[2].1 matches JsonView::List(cells) && cells.len() == tables.stacks.len()
                && forall|i: int|
                0 <= i < tables.stacks.len() ==> #[trigger] cells[i]
                    == JsonView::UInt(tables.stacks[i].frame as u64)
            &&& entries[3].0 == "category"@
            &&& entries[3].1 matches JsonView::List(cells) && cells.len() == tables.stacks.len()
                && forall|i: int|
                0 <= i < tables.stacks.len() ==> {
                    let cell = #[trigger] cells[i];
                    let pair = tables.frames[tables.stacks[i].frame as int].category_pair;
                    &&& cell == JsonView::UInt(pair.0.0 as u64)
                }
            &&& entries[4].0 == "subcategory"@
            &&& entries[4].1 matches JsonView::List(cells) && cells.len() == tables.stacks.len()
                && forall|i: int|
                0 <= i < tables.stacks.len() ==> {
                    let cell = #[trigger] cells[i];
                    let pair = tables.frames[tables.stacks[i].frame as int].category_pair;
                    &&& pair.1 matches Some(subcategory) ==> cell
                        == JsonView::UInt(subcategory.0 as u64)
                    &&& pair.1 is None && pair.0.0 < categories.len() ==> cell == JsonView::UInt(
                            categories[pair.0.0 as int].subcategories.len() as u64,
                        )
                }
        },
{
}

/// The strings in the profile JSON, in their order.
pub proof fn string_array_holds_the_strings(strings: Seq<Seq<char>>)
    ensures
        string_array_json(strings) matches JsonView::List(cells) && {
            &&& cells.len() == strings.len()
            &&& forall|i: int|
                0 <= i < strings.len() ==> #[trigger] cells[i] == JsonView::Text(strings[i])
        },
{
}

/// A time in the profile JSON is the whole number of its nanoseconds, so that times can be told
/// apart and keep their order. A time that is not known is null.
pub proof fn times_are_shown_in_full(time: Timestamp)
    ensures
        time_json(time) == JsonView::Millis(time.nanos),
        optional_time_json(Some(time)) == JsonView::Millis(time.nanos),
        optional_time_json(None) == JsonView::Null,
{
}

/// The views of categories and markers are taken one by one.
pub proof fn rows_are_viewed_one_by_one(categories: Seq<Category>, markers: Seq<MarkerRow>)
    ensures
        categories_view(categories).len() == categories.len(),
        forall|i: int|
            0 <= i < categories.len() ==> categories_view(categories)[i]
                == #[trigger] categories[i]@,
        markers_view(markers).len() == markers.len(),
        forall|i: int|
            0 <= i < markers.len() ==> markers_view(markers)[i] == #[trigger] markers[i]@,
{
}


} // verus!
