//! The threads of a profile.

use crate::intern::{extends, interned_is_stable};
use crate::category::{Category, CategoryView};
use crate::digits::{decimal, digits, number_read, written_digits_are_read_back};
use crate::json::{empty_list, json_text, Json, JsonView, ObjectBuilder};
use crate::library::{GlobalLibTable, LibView};
use crate::marker::{MarkerRow, MarkerTiming, MarkerView};
use crate::process::ProcessHandle;
use crate::sample_table::{idle_weight_fits, with_idle_sample, SampleRow, SampleTable};
use crate::sort::Ranked;
use crate::stack_tables::{
    index_in, lemma_with_frame, lemma_with_stack, lemma_with_string, stack_exists, InternalFrame,
    StackRow, StackTables, TablesView,
};
use crate::table_json::{
    categories_view, frame_table, frame_table_json, func_table, func_table_json, marker_table,
    marker_table_json, markers_view, optional_time, optional_time_json, resource_table,
    resource_table_json, sample_table, sample_table_json, stack_table, stack_table_json,
    stacks_have_frames, string_array, string_array_json, time_json,
};
use crate::text::{
    is_optional_text_le, is_same_optional_text, optional_text, optional_text_le,
    optional_text_le_antisymmetric, optional_text_le_total, optional_text_le_transitive,
};
use crate::timestamp::{CpuDelta, Timestamp};
use vstd::prelude::*;

verus! {

/// A thread.
#[derive(Debug)]
pub struct Thread {
    process: ProcessHandle,
    tid: u32,
    name: Option<String>,
    start_time: Timestamp,
    end_time: Option<Timestamp>,
    is_main: bool,
    tables: StackTables,
    samples: SampleTable,
    markers: Vec<MarkerRow>,
}

/// What a [`Thread`] says.
#[verifier::ext_equal]
pub struct ThreadView {
    pub process: ProcessHandle,
    pub tid: u32,
    pub name: Option<Seq<char>>,
    pub start_time: Timestamp,
    pub end_time: Option<Timestamp>,
    pub is_main: bool,
    pub tables: TablesView,
    pub samples: Seq<SampleRow>,
    pub markers: Seq<MarkerView>,
}

impl ThreadView {
    /// The tables are in order, and what samples and markers refer to exists.
    pub open spec fn valid(self, globals: Seq<LibView>) -> bool {
        &&& self.tables.valid(globals)
        &&& forall|i: int|
            0 <= i < self.samples.len() ==> stack_exists(
                self.tables,
                (#[trigger] self.samples[i]).stack,
            )
        &&& forall|i: int|
            0 <= i < self.markers.len() ==> (#[trigger] self.markers[i]).name
                < self.tables.strings.len()
    }

    /// With one more marker.
    pub open spec fn with_marker(
        self,
        name: Seq<char>,
        timing: MarkerTiming,
        data: JsonView,
    ) -> ThreadView {
        let tables = self.tables.with_string(name);
        ThreadView {
            tables,
            markers: self.markers.push(
                MarkerView { name: index_in(tables.strings, name), timing, data },
            ),
            ..self
        }
    }
}

impl View for Thread {
    type V = ThreadView;

    closed spec fn view(&self) -> ThreadView {
        ThreadView {
            process: self.process,
            tid: self.tid,
            name: optional_text(self.name),
            start_time: self.start_time,
            end_time: self.end_time,
            is_main: self.is_main,
            tables: self.tables@,
            samples: self.samples@,
            markers: markers_view(self.markers@),
        }
    }
}

/// The order of the threads of a process in the profile JSON: the main thread first, then by
/// start time, then by name, then by tid.
pub open spec fn thread_le(a: ThreadView, b: ThreadView) -> bool {
    if a.is_main != b.is_main {
        a.is_main
    } else if a.start_time.nanos != b.start_time.nanos {
        a.start_time.nanos < b.start_time.nanos
    } else if a.name != b.name {
        optional_text_le(a.name, b.name)
    } else {
        a.tid <= b.tid
    }
}

/// Any two threads are ordered one way or the other.
pub proof fn thread_le_total(a: ThreadView, b: ThreadView)
    ensures
        thread_le(a, b) || thread_le(b, a),
{
    optional_text_le_total(a.name, b.name);
}

/// The order of threads is transitive.
pub proof fn thread_le_transitive(a: ThreadView, b: ThreadView, c: ThreadView)
    requires
        thread_le(a, b),
        thread_le(b, c),
    ensures
        thread_le(a, c),
{
    if optional_text_le(a.name, b.name) && optional_text_le(b.name, c.name) {
        optional_text_le_transitive(a.name, b.name, c.name);
        if a.name == c.name {
            optional_text_le_antisymmetric(a.name, b.name);
        }
    }
}

impl Ranked for Thread {
    open spec fn ranked_le(self, other: Self) -> bool {
        thread_le(self@, other@)
    }

    proof fn ranked_total(a: Self, b: Self) {
        thread_le_total(a@, b@);
    }

    proof fn ranked_transitive(a: Self, b: Self, c: Self) {
        thread_le_transitive(a@, b@, c@);
    }

    fn is_ranked_le(&self, other: &Self) -> (r: bool) {
        if self.is_main != other.is_main {
            self.is_main
        } else if self.start_time.nanos != other.start_time.nanos {
            self.start_time.nanos < other.start_time.nanos
        } else if !is_same_optional_text(&self.name, &other.name) {
            is_optional_text_le(&self.name, &other.name)
        } else {
            self.tid <= other.tid
        }
    }
}

/// The name that a thread has in the profile JSON. The main thread has one by which the Firefox
/// Profiler knows it, and a thread without a name is named by its tid.
pub open spec fn shown_name(thread: ThreadView) -> Seq<char> {
    if thread.is_main {
        "GeckoMain"@
    } else {
        match thread.name {
            Some(name) => name,
            None => "Thread <"@ + digits(thread.tid as nat, 10) + ">"@,
        }
    }
}

/// The table of native symbols, which stays empty.
pub open spec fn native_symbols_json() -> JsonView {
    JsonView::Object(
        seq![
            ("length"@, JsonView::UInt(0)),
            ("address"@, JsonView::List(Seq::empty())),
            ("functionSize"@, JsonView::List(Seq::empty())),
            ("libIndex"@, JsonView::List(Seq::empty())),
            ("name"@, JsonView::List(Seq::empty())),
        ],
    )
}

fn native_symbols() -> (json: Json)
    ensures
        json@ == native_symbols_json(),
{
    let mut object: ObjectBuilder = ObjectBuilder::new();
    object.entry("length", Json::UInt(0));
    object.entry("address", empty_list());
    object.entry("functionSize", empty_list());
    object.entry("libIndex", empty_list());
    object.entry("name", empty_list());
    assert(object@ =~= native_symbols_json()->Object_0);
    object.build()
}

/// A thread in the profile JSON, with what the JSON says of its process.
pub open spec fn thread_json(
    thread: ThreadView,
    categories: Seq<CategoryView>,
    process_start_time: Timestamp,
    process_end_time: Option<Timestamp>,
    process_name: Seq<char>,
    pid: u32,
) -> JsonView {
    JsonView::Object(
        seq![
            ("frameTable"@, frame_table_json(thread.tables, categories)),
            ("funcTable"@, func_table_json(thread.tables)),
            ("markers"@, marker_table_json(thread.markers)),
            ("name"@, JsonView::Text(shown_name(thread))),
            ("isMainThread"@, JsonView::Bool(thread.is_main)),
            ("nativeSymbols"@, native_symbols_json()),
            ("pausedRanges"@, JsonView::List(Seq::empty())),
            ("pid"@, JsonView::Text(digits(pid as nat, 10))),
            ("processName"@, JsonView::Text(process_name)),
            ("processShutdownTime"@, optional_time_json(process_end_time)),
            ("processStartupTime"@, time_json(process_start_time)),
            ("processType"@, JsonView::Text("default"@)),
            ("registerTime"@, time_json(thread.start_time)),
            ("resourceTable"@, resource_table_json(thread.tables)),
            ("samples"@, sample_table_json(thread.samples)),
            ("stackTable"@, stack_table_json(thread.tables, categories)),
            ("stringArray"@, string_array_json(thread.tables.strings)),
            ("tid"@, JsonView::Text(digits(thread.tid as nat, 10))),
            ("unregisterTime"@, optional_time_json(thread.end_time)),
        ],
    )
}

impl Thread {
    /// The name that the thread has in the profile JSON.
    fn find_shown_name(&self) -> (name: String)
        ensures
            name@ == shown_name(self@),
    {
        if self.is_main {
            return "GeckoMain".to_string();
        }
        match &self.name {
            Some(name) => name.clone(),
            None => {
                let mut text: String = "Thread <".to_string();
                text.append(decimal(self.tid as u64).as_str());
                text.append(">");
                text
            },
        }
    }

    /// The thread in the profile JSON.
    pub fn to_json(
        &self,
        categories: &Vec<Category>,
        process_start_time: Timestamp,
        process_end_time: Option<Timestamp>,
        process_name: &str,
        pid: u32,
    ) -> (json: Json)
        requires
            stacks_have_frames(self@.tables),
        ensures
            json@ == thread_json(
                self@,
                categories_view(categories@),
                process_start_time,
                process_end_time,
                process_name@,
                pid,
            ),
    {
        let mut object: ObjectBuilder = ObjectBuilder::new();
        object.entry("frameTable", frame_table(&self.tables, categories));
        object.entry("funcTable", func_table(&self.tables));
        object.entry("markers", marker_table(&self.markers));
        object.entry("name", Json::Text(self.find_shown_name()));
        object.entry("isMainThread", Json::Bool(self.is_main));
        object.entry("nativeSymbols", native_symbols());
        object.entry("pausedRanges", empty_list());
        object.entry("pid", Json::Text(decimal(pid as u64)));
        object.entry("processName", json_text(process_name));
        object.entry("processShutdownTime", optional_time(process_end_time));
        object.entry("processStartupTime", Json::Millis(process_start_time.nanos));
        object.entry("processType", json_text("default"));
        object.entry("registerTime", Json::Millis(self.start_time.nanos));
        object.entry("resourceTable", resource_table(&self.tables));
        object.entry("samples", sample_table(self.samples.rows()));
        object.entry("stackTable", stack_table(&self.tables, categories));
        object.entry("stringArray", string_array(self.tables.strings()));
        object.entry("tid", Json::Text(decimal(self.tid as u64)));
        object.entry("unregisterTime", optional_time(self.end_time));
        proof {
            let expected = thread_json(
                self@,
                categories_view(categories@),
                process_start_time,
                process_end_time,
                process_name@,
                pid,
            );
            assert(object@ =~= expected->Object_0);
        }
        object.build()
    }

    /// Rows can be found in the tables, and all rows are in order.
    pub closed spec fn wf(self, globals: Seq<LibView>) -> bool {
        &&& self.tables.wf(globals)
        &&& self@.valid(globals)
    }

    /// The facts on the rows that others may use.
    pub proof fn lemma_wf(&self, globals: Seq<LibView>)
        requires
            self.wf(globals),
        ensures
            self@.valid(globals),
            self@.tables.fits(),
    {
        self.tables.lemma_fits();
    }

    /// Adding to the libraries of the profile does not harm.
    pub proof fn lemma_extended(self, globals: Seq<LibView>, longer: Seq<LibView>)
        requires
            self.wf(globals),
            extends(longer, globals),
        ensures
            self.wf(longer),
    {
        self.tables.lemma_extended(globals, longer);
    }

    /// A thread without samples and markers.
    pub fn new(process: ProcessHandle, tid: u32, start_time: Timestamp, is_main: bool) -> (thread:
        Self)
        ensures
            forall|globals: Seq<LibView>| #[trigger] thread.wf(globals),
            thread@ == (ThreadView {
                process,
                tid,
                name: None,
                start_time,
                end_time: None,
                is_main,
                tables: TablesView::empty(),
                samples: Seq::empty(),
                markers: Seq::empty(),
            }),
    {
        let thread: Thread = Thread {
            process,
            tid,
            name: None,
            start_time,
            end_time: None,
            is_main,
            tables: StackTables::new(),
            samples: SampleTable::new(),
            markers: Vec::new(),
        };
        assert(thread@.markers =~= Seq::empty());
        thread
    }

    pub fn process(&self) -> (process: ProcessHandle)
        ensures
            process == self@.process,
    {
        self.process
    }

    pub fn set_name(&mut self, name: &str)
        ensures
            final(self)@ == (ThreadView { name: Some(name@), ..old(self)@ }),
            forall|globals: Seq<LibView>| #[trigger]
                old(self).wf(globals) ==> final(self).wf(globals),
    {
        self.name = Some(name.to_string());
    }

    pub fn set_start_time(&mut self, start_time: Timestamp)
        ensures
            final(self)@ == (ThreadView { start_time, ..old(self)@ }),
            forall|globals: Seq<LibView>| #[trigger]
                old(self).wf(globals) ==> final(self).wf(globals),
    {
        self.start_time = start_time;
    }

    pub fn set_end_time(&mut self, end_time: Timestamp)
        ensures
            final(self)@ == (ThreadView { end_time: Some(end_time), ..old(self)@ }),
            forall|globals: Seq<LibView>| #[trigger]
                old(self).wf(globals) ==> final(self).wf(globals),
    {
        self.end_time = Some(end_time);
    }

    /// The index of a string, which is added if the thread does not have it.
    pub fn convert_string(&mut self, s: &str, global_libs: &GlobalLibTable) -> (index: usize)
        requires
            old(self).wf(global_libs@),
        ensures
            final(self).wf(global_libs@),
            final(self)@ == (ThreadView {
                tables: old(self)@.tables.with_string(s@),
                ..old(self)@
            }),
            index < final(self)@.tables.strings.len(),
            index == index_in(final(self)@.tables.strings, s@),
    {
        proof {
            lemma_with_string(self@.tables, global_libs@, s@);
        }
        self.tables.index_for_string(s)
    }

    /// The index of a frame, which is added if the thread does not have it.
    pub fn frame_index_for_frame(
        &mut self,
        frame: InternalFrame,
        global_libs: &GlobalLibTable,
    ) -> (index: usize)
        requires
            old(self).wf(global_libs@),
            old(self)@.tables.location_ok(global_libs@, frame.location),
        ensures
            final(self).wf(global_libs@),
            final(self)@ == (ThreadView {
                tables: old(self)@.tables.with_frame(global_libs@, frame),
                ..old(self)@
            }),
            index < final(self)@.tables.frames.len(),
            index == index_in(final(self)@.tables.frames, frame),
    {
        let index: usize = self.tables.frame_index_for_frame(frame, global_libs);
        proof {
            self.tables.lemma_fits();
            lemma_with_frame(old(self)@.tables, global_libs@, frame);
        }
        index
    }

    /// The index of a stack, which is added if the thread does not have it.
    pub fn stack_index_for_stack(
        &mut self,
        prefix: Option<usize>,
        frame: usize,
        global_libs: &GlobalLibTable,
    ) -> (index: usize)
        requires
            old(self).wf(global_libs@),
            stack_exists(old(self)@.tables, prefix),
            frame < old(self)@.tables.frames.len(),
        ensures
            final(self).wf(global_libs@),
            final(self)@ == (ThreadView {
                tables: old(self)@.tables.with_stack(StackRow { prefix, frame }),
                ..old(self)@
            }),
            index < final(self)@.tables.stacks.len(),
            index == index_in(final(self)@.tables.stacks, (StackRow { prefix, frame })),
    {
        proof {
            lemma_with_stack(self@.tables, global_libs@, StackRow { prefix, frame });
        }
        self.tables.stack_index_for_stack(prefix, frame)
    }

    /// Add a sample.
    pub fn add_sample(
        &mut self,
        timestamp: Timestamp,
        stack: Option<usize>,
        cpu_delta: CpuDelta,
        weight: i32,
    )
        requires
            stack_exists(old(self)@.tables, stack),
        ensures
            final(self)@ == (ThreadView {
                samples: old(self)@.samples.push(
                    SampleRow { timestamp, stack, cpu_delta, weight },
                ),
                ..old(self)@
            }),
            forall|globals: Seq<LibView>| #[trigger]
                old(self).wf(globals) ==> final(self).wf(globals),
    {
        self.samples.add_sample(timestamp, stack, cpu_delta, weight);
    }

    /// Add a sample of no CPU time, with the stack of the last one.
    pub fn add_sample_same_stack_zero_cpu(&mut self, timestamp: Timestamp, weight: i32)
        requires
            idle_weight_fits(old(self)@.samples, weight),
        ensures
            final(self)@ == (ThreadView {
                samples: with_idle_sample(old(self)@.samples, timestamp, weight),
                ..old(self)@
            }),
            forall|globals: Seq<LibView>| #[trigger]
                old(self).wf(globals) ==> final(self).wf(globals),
    {
        self.samples.add_sample_same_stack_zero_cpu(timestamp, weight);
        proof {
            let before = old(self)@.samples;
            assert forall|globals: Seq<LibView>| #[trigger] old(self).wf(globals) implies self.wf(
                globals,
            ) by {
                assert forall|i: int| 0 <= i < self@.samples.len() implies stack_exists(
                    self@.tables,
                    (#[trigger] self@.samples[i]).stack,
                ) by {
                    if i < before.len() {
                        assert(stack_exists(old(self)@.tables, before[i].stack));
                    } else if before.len() > 0 {
                        assert(stack_exists(old(self)@.tables, before[before.len() - 1].stack));
                    }
                }
            }
        }
    }

    /// Add a marker with the given data.
    pub fn add_marker(
        &mut self,
        name: &str,
        data: Json,
        timing: MarkerTiming,
        global_libs: &GlobalLibTable,
    )
        requires
            old(self).wf(global_libs@),
        ensures
            final(self).wf(global_libs@),
            final(self)@ == old(self)@.with_marker(name@, timing, data@),
    {
        let index: usize = self.convert_string(name, global_libs);
        let row: MarkerRow = MarkerRow { name: index, timing, data };
        proof {
            assert(markers_view(self.markers@.push(row)) =~= markers_view(self.markers@).push(
                row@,
            ));
            interned_is_stable(old(self)@.tables.strings, name@);
        }
        self.markers.push(row);
    }
}

/// A thread in the profile JSON holds its tables, samples and markers, and exactly the times at
/// which it and its process started and ended, where they did.
pub proof fn thread_json_holds_the_thread(
    thread: ThreadView,
    categories: Seq<CategoryView>,
    process_start_time: Timestamp,
    process_end_time: Option<Timestamp>,
    process_name: Seq<char>,
    pid: u32,
)
    ensures
        thread_json(
            thread,
            categories,
            process_start_time,
            process_end_time,
            process_name,
            pid,
        ) matches JsonView::Object(entries) && {
            &&& entries.len() == 19
            &&& entries[0] == ("frameTable"@, frame_table_json(thread.tables, categories))
            &&& entries[1] == ("funcTable"@, func_table_json(thread.tables))
            &&& entries[2] == ("markers"@, marker_table_json(thread.markers))
            &&& entries[3] == ("name"@, JsonView::Text(shown_name(thread)))
            &&& entries[4] == ("isMainThread"@, JsonView::Bool(thread.is_main))
            &&& entries[5].0 == "nativeSymbols"@
            &&& entries[5].1 matches JsonView::Object(symbols) && {
                &&& symbols.len() == 5
                &&& symbols[0] == ("length"@, JsonView::UInt(0))
                &&& symbols[1] == ("address"@, JsonView::List(Seq::empty()))
                &&& symbols[2] == ("functionSize"@, JsonView::List(Seq::empty()))
                &&& symbols[3] == ("libIndex"@, JsonView::List(Seq::empty()))
                &&& symbols[4] == ("name"@, JsonView::List(Seq::empty()))
            }
            &&& entries[6] == ("pausedRanges"@, JsonView::List(Seq::empty()))
            &&& entries[7].0 == "pid"@
            &&& entries[7].1 matches JsonView::Text(text) && number_read(text, 10) == pid
                && text.len() > 0 && (pid > 0 ==> text[0] != '0')
            &&& entries[8] == ("processName"@, JsonView::Text(process_name))
            &&& entries[9].0 == "processShutdownTime"@
            &&& process_end_time matches Some(end) ==> entries[9].1 == JsonView::Millis(end.nanos)
            &&& process_end_time is None ==> entries[9].1 == JsonView::Null
            &&& entries[10] == ("processStartupTime"@, JsonView::Millis(process_start_time.nanos))
            &&& entries[11] == ("processType"@, JsonView::Text("default"@))
            &&& entries[12] == ("registerTime"@, JsonView::Millis(thread.start_time.nanos))
            &&& entries[13] == ("resourceTable"@, resource_table_json(thread.tables))
            &&& entries[14] == ("samples"@, sample_table_json(thread.samples))
            &&& entries[15] == ("stackTable"@, stack_table_json(thread.tables, categories))
            &&& entries[16] == ("stringArray"@, string_array_json(thread.tables.strings))
            &&& entries[17].0 == "tid"@
            &&& entries[17].1 matches JsonView::Text(text) && number_read(text, 10) == thread.tid
                && text.len() > 0 && (thread.tid > 0 ==> text[0] != '0')
            &&& entries[18].0 == "unregisterTime"@
            &&& thread.end_time matches Some(end) ==> entries[18].1 == JsonView::Millis(end.nanos)
            &&& thread.end_time is None ==> entries[18].1 == JsonView::Null
        },
{
    written_digits_are_read_back(pid as nat, 10);
    written_digits_are_read_back(thread.tid as nat, 10);
}

/// The main thread is shown under one name, any other thread under the name that it was given. A
/// thread without one is shown as `Thread <` and its tid and `>`, so that the tid is read back.
pub proof fn threads_are_shown_by_name_or_tid(thread: ThreadView)
    ensures
        thread.is_main ==> shown_name(thread) == "GeckoMain"@,
        !thread.is_main && thread.name is Some ==> shown_name(thread) == thread.name->0,
        !thread.is_main && thread.name is None ==> {
            let text = shown_name(thread);
            &&& text.len() > 9
            &&& text.take(8) == seq!['T', 'h', 'r', 'e', 'a', 'd', ' ', '<']
            &&& text.last() == '>'
            &&& number_read(text.subrange(8, text.len() - 1), 10) == thread.tid
        },
{
    reveal_strlit("Thread <");
    reveal_strlit(">");
    written_digits_are_read_back(thread.tid as nat, 10);
    if !thread.is_main && thread.name is None {
        let text = shown_name(thread);
        let number = digits(thread.tid as nat, 10);
        assert(text.take(8) =~= seq!['T', 'h', 'r', 'e', 'a', 'd', ' ', '<']);
        assert(text.subrange(8, text.len() - 1) =~= number);
    }
}

/// A thread comes before another in the profile JSON by its first difference from it: the main
/// thread first, then the one that started first, the one with the name that comes first, and the
/// one with the lower tid.
pub proof fn first_difference_orders_threads(a: ThreadView, b: ThreadView)
    ensures
        a.is_main && !b.is_main ==> thread_le(a, b) && !thread_le(b, a),
        a.is_main == b.is_main && a.start_time.nanos < b.start_time.nanos ==> thread_le(a, b)
            && !thread_le(b, a),
        a.is_main == b.is_main && a.start_time.nanos == b.start_time.nanos && a.name == b.name ==> (
        thread_le(a, b) <==> a.tid <= b.tid),
        a.is_main == b.is_main && a.start_time.nanos == b.start_time.nanos && a.name != b.name ==> (
        thread_le(a, b) <==> optional_text_le(a.name, b.name)),
{
}

} // verus!
