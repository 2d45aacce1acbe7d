//! The profile.

use crate::category::{
    category_json, Category, CategoryColor, CategoryHandle, CategoryPairHandle, CategoryView,
};
use crate::frame::{
    instruction_pointer_is_where_its_address_is, label_says_its_string,
    return_address_is_behind_its_call, Frame,
};
use crate::intern::{extends, interned, interned_is_stable};
use crate::json::{empty_list, items_view, json_text, list, Json, JsonView, ObjectBuilder};
use crate::library::{
    addresses_resolve_into_ranges, lib_json, relative_address, GlobalLibTable, LibView,
    LibraryInfo, LibsView, LibsWithRanges,
};
use crate::marker::{schema_json, MarkerSchema, MarkerTiming, ProfilerMarker, SchemaView};
use crate::process::{
    covering_library_locates_address, kernel_libraries_come_first, process_le, resolve_address,
    Process, ProcessHandle, ProcessView, ThreadHandle,
};
use crate::sample_table::{idle_weight_fits, with_idle_sample, SampleRow};
use crate::sort::{
    all_indexes, is_listing, is_sorted, listing_is_complete, listing_is_unique, sort_indexes,
    stable_le,
};
use crate::stack_tables::{
    lemma_located, lemma_with_frame, recorded_calls_are_read_back, recorded_stacks_are_stable,
    stack_exists, CodeLocation, InternalFrame, InternalFrameLocation, StackState, TablesView,
};
use crate::string_table::StringTable;
use crate::table_json::{
    categories_view, column, column_json, marker_columns_hold_the_markers,
    sample_columns_hold_the_samples,
};
use crate::text::{
    is_same_text, optional_text_le, optional_text_le_antisymmetric, text_le, text_le_total,
    text_le_transitive,
};
use crate::thread::{
    thread_json, thread_json_holds_the_thread, thread_le, thread_le_total, thread_le_transitive,
    Thread, ThreadView,
};
use crate::timestamp::{CpuDelta, ReferenceTimestamp, Timestamp};
use vstd::prelude::*;
use vstd::std_specs::iter::IteratorSpec;

verus! {

/// The sampling interval used during profile recording.
///
/// This doesn't have to match the actual delta between sample timestamps.
/// It just describes the intended interval.
///
/// For profiles without sampling data, this can be set to a meaningless
/// dummy value.
#[derive(Debug, Clone, Copy, PartialOrd, Ord, PartialEq, Eq, Hash, Structural)]
pub struct SamplingInterval {
    nanos: u64,
}

impl View for SamplingInterval {
    type V = u64;

    closed spec fn view(&self) -> u64 {
        self.nanos
    }
}

impl SamplingInterval {
    /// Create a sampling interval from a value in milliseconds.
    pub fn from_millis(millis: u64) -> (interval: Self)
        requires
            millis * 1_000_000 <= u64::MAX,
        ensures
            interval@ == millis * 1_000_000,
    {
        Self::from_nanos(millis * 1_000_000)
    }

    /// Create a sampling interval from a value in nanoseconds.
    pub fn from_nanos(nanos: u64) -> (interval: Self)
        ensures
            interval@ == nanos,
    {
        Self { nanos }
    }

    /// Create a sampling interval from whole seconds and the nanoseconds beyond them. Of a number
    /// of nanoseconds that does not fit, the low 64 bits are taken.
    pub fn from_seconds_and_nanos(seconds: u64, subsecond_nanos: u32) -> (interval: Self)
        ensures
            interval@ == (seconds * 1_000_000_000 + subsecond_nanos) % 0x1_0000_0000_0000_0000,
    {
        let nanos: u128 = seconds as u128 * 1_000_000_000 + subsecond_nanos as u128;
        assert(nanos as u64 == nanos % 0x1_0000_0000_0000_0000) by (bit_vector);
        Self::from_nanos(nanos as u64)
    }

    /// Convert the interval to nanoseconds.
    pub fn nanos(&self) -> (nanos: u64)
        ensures
            nanos == self@,
    {
        self.nanos
    }
}

/// A handle for an interned string, returned from [`Profile::intern_string`].
#[derive(Debug, Clone, Copy, PartialOrd, Ord, PartialEq, Eq, Hash, Structural)]
pub struct StringHandle(pub usize);

/// The profile data: a list of processes with threads. Each thread has its own samples and
/// markers.
#[derive(Debug)]
pub struct Profile {
    product: String,
    interval: SamplingInterval,
    global_libs: GlobalLibTable,
    kernel_libs: LibsWithRanges,
    categories: Vec<Category>,  // append-only for stable CategoryHandles
    processes: Vec<Process>,  // append-only for stable ProcessHandles
    threads: Vec<Thread>,  // append-only for stable ThreadHandles
    reference_timestamp: ReferenceTimestamp,
    string_table: StringTable,
    marker_schemas: Vec<(&'static str, MarkerSchema)>,
}

/// What a [`Profile`] says.
#[verifier::ext_equal]
pub struct ProfileView {
    pub product: Seq<char>,
    pub interval: SamplingInterval,
    /// The libraries that frames are in.
    pub global_libs: Seq<LibView>,
    pub kernel_libs: LibsView,
    pub categories: Seq<CategoryView>,
    pub processes: Seq<ProcessView>,
    pub threads: Seq<ThreadView>,
    pub reference_timestamp: ReferenceTimestamp,
    pub strings: Seq<Seq<char>>,
    /// The schemas of the marker types, with the names by which they were added.
    pub marker_schemas: Seq<(Seq<char>, SchemaView)>,
}

/// The handles of the threads of a process, in the order in which they were added.
pub open spec fn threads_of(threads: Seq<ThreadView>, process: int) -> Seq<ThreadHandle>
    decreases threads.len(),
{
    if threads.len() == 0 {
        Seq::empty()
    } else {
        let before = threads_of(threads.drop_last(), process);
        if threads.last().process.0 == process {
            before.push(ThreadHandle((threads.len() - 1) as usize))
        } else {
            before
        }
    }
}

/// No schema has the name `key`.
pub open spec fn lacks_schema(schemas: Seq<(Seq<char>, SchemaView)>, key: Seq<char>) -> bool {
    forall|i: int| 0 <= i < schemas.len() ==> (#[trigger] schemas[i]).0 != key
}

impl ProfileView {
    /// The handles are good, and all tables are in order.
    pub open spec fn valid(self) -> bool {
        &&& self.global_libs.no_duplicates()
        &&& self.kernel_libs.valid()
        &&& self.strings.no_duplicates()
        &&& self.categories.len() > 0
        &&& self.categories[0].name == "Other"@
        &&& self.categories[0].color == CategoryColor::Grey
        &&& forall|p: int|
            0 <= p < self.processes.len() ==> {
                &&& (#[trigger] self.processes[p]).libs.valid()
                &&& self.processes[p].threads == threads_of(self.threads, p)
            }
        &&& forall|t: int|
            0 <= t < self.threads.len() ==> {
                &&& (#[trigger] self.threads[t]).valid(self.global_libs)
                &&& self.threads[t].process.0 < self.processes.len()
            }
        &&& forall|i: int, j: int|
            0 <= i < j < self.marker_schemas.len() ==> (#[trigger] self.marker_schemas[i]).0 != (
            #[trigger] self.marker_schemas[j]).0
    }

    /// All handles that were good before are good, and stand for the same things.
    pub open spec fn continues(self, before: ProfileView) -> bool {
        &&& extends(self.global_libs, before.global_libs)
        &&& extends(self.strings, before.strings)
        &&& before.categories.len() <= self.categories.len()
        &&& forall|c: int|
            0 <= c < before.categories.len() ==> {
                &&& (#[trigger] self.categories[c]).name == before.categories[c].name
                &&& self.categories[c].color == before.categories[c].color
                &&& extends(self.categories[c].subcategories, before.categories[c].subcategories)
            }
        &&& before.processes.len() <= self.processes.len()
        &&& forall|p: int|
            0 <= p < before.processes.len() ==> {
                &&& (#[trigger] self.processes[p]).pid == before.processes[p].pid
                &&& extends(self.processes[p].threads, before.processes[p].threads)
            }
        &&& before.threads.len() <= self.threads.len()
        &&& forall|t: int|
            0 <= t < before.threads.len() ==> {
                &&& (#[trigger] self.threads[t]).process == before.threads[t].process
                &&& self.threads[t].tid == before.threads[t].tid
                &&& self.threads[t].is_main == before.threads[t].is_main
                &&& self.threads[t].tables.continues(before.threads[t].tables)
                &&& extends(self.threads[t].markers, before.threads[t].markers)
            }
        &&& extends(self.marker_schemas, before.marker_schemas)
    }

    /// A thread may stand before another in the profile JSON: its process does, or they belong to
    /// the same process and it comes first there. Where nothing else decides, it was added first.
    pub open spec fn thread_listed_le(self, a: usize, b: usize) -> bool {
        let x = self.threads[a as int];
        let y = self.threads[b as int];
        if x.process == y.process {
            thread_le(x, y) && (thread_le(y, x) ==> a <= b)
        } else {
            let p = self.processes[x.process.0 as int];
            let q = self.processes[y.process.0 as int];
            process_le(p, q) && (process_le(q, p) ==> x.process.0 <= y.process.0)
        }
    }

    /// A schema may stand before another in the profile JSON, by the names of the marker types.
    pub open spec fn schema_listed_le(self, a: usize, b: usize) -> bool {
        let x = self.marker_schemas[a as int].1.name;
        let y = self.marker_schemas[b as int].1.name;
        text_le(x, y) && (text_le(y, x) ==> a <= b)
    }

    /// Another view of one process.
    pub open spec fn with_process(
        self,
        process: ProcessHandle,
        changed: ProcessView,
    ) -> ProfileView {
        ProfileView { processes: self.processes.update(process.0 as int, changed), ..self }
    }

    /// Another view of one thread.
    pub open spec fn with_thread(self, thread: ThreadHandle, changed: ThreadView) -> ProfileView {
        ProfileView { threads: self.threads.update(thread.0 as int, changed), ..self }
    }

    /// The process that a thread belongs to.
    pub open spec fn process_of(self, thread: ThreadHandle) -> ProcessView {
        self.processes[self.threads[thread.0 as int].process.0 as int]
    }

    /// Where the frames of a thread are, and their categories.
    pub open spec fn calls(
        self,
        thread: ThreadHandle,
        frames: Seq<(Frame, CategoryPairHandle)>,
    ) -> Seq<(CodeLocation, CategoryPairHandle)> {
        frames.map_values(
            |frame: (Frame, CategoryPairHandle)|
                (
                    frame.0.location(
                        self.kernel_libs,
                        self.process_of(thread).libs,
                        self.strings,
                    ),
                    frame.1,
                ),
        )
    }

    /// The tables of a thread, before a stack is recorded.
    pub open spec fn stack_state(self, thread: ThreadHandle) -> StackState {
        StackState {
            tables: self.threads[thread.0 as int].tables,
            globals: self.global_libs,
            stack: None,
        }
    }

    /// After a stack of a thread has been recorded.
    pub open spec fn with_stack_state(
        self,
        thread: ThreadHandle,
        state: StackState,
    ) -> ProfileView {
        ProfileView {
            global_libs: state.globals,
            threads: self.threads.update(
                thread.0 as int,
                ThreadView { tables: state.tables, ..self.threads[thread.0 as int] },
            ),
            ..self
        }
    }

    /// With one more sample.
    pub open spec fn with_sample(self, thread: ThreadHandle, sample: SampleRow) -> ProfileView {
        let before = self.threads[thread.0 as int];
        self.with_thread(
            thread,
            ThreadView { samples: before.samples.push(sample), ..before },
        )
    }

    /// With a schema under the name `key`, unless there is one already.
    pub open spec fn with_schema(self, key: Seq<char>, schema: SchemaView) -> ProfileView {
        if lacks_schema(self.marker_schemas, key) {
            ProfileView { marker_schemas: self.marker_schemas.push((key, schema)), ..self }
        } else {
            self
        }
    }

    /// With one more marker.
    pub open spec fn with_marker(
        self,
        thread: ThreadHandle,
        name: Seq<char>,
        timing: MarkerTiming,
        data: JsonView,
    ) -> ProfileView {
        self.with_thread(thread, self.threads[thread.0 as int].with_marker(name, timing, data))
    }
}

impl View for Profile {
    type V = ProfileView;

    closed spec fn view(&self) -> ProfileView {
        ProfileView {
            product: self.product@,
            interval: self.interval,
            global_libs: self.global_libs@,
            kernel_libs: self.kernel_libs@,
            categories: categories_view(self.categories@),
            processes: self.processes@.map_values(|process: Process| process@),
            threads: self.threads@.map_values(|thread: Thread| thread@),
            reference_timestamp: self.reference_timestamp,
            strings: self.string_table@,
            marker_schemas: self.marker_schemas@.map_values(
                |entry: (&'static str, MarkerSchema)| (entry.0@, entry.1@),
            ),
        }
    }
}

impl Profile {
    /// The handles are good, and all tables are in order and can be searched.
    pub closed spec fn wf(self) -> bool {
        &&& self@.valid()
        &&& self.string_table.wf()
        &&& self.kernel_libs.wf(self.global_libs@)
        &&& forall|p: int|
            0 <= p < self.processes@.len() ==> (#[trigger] self.processes@[p]).wf(
                self.global_libs@,
            )
        &&& forall|t: int|
            0 <= t < self.threads@.len() ==> (#[trigger] self.threads@[t]).wf(self.global_libs@)
    }

    /// What holds of every profile.
    pub proof fn lemma_wf(self)
        requires
            self.wf(),
        ensures
            self@.valid(),
    {
    }

    /// Create a new profile.
    ///
    /// The `product` is the name of the main application which was profiled.
    /// The `reference_timestamp` is some arbitrary absolute timestamp which all
    /// other timestamps in the profile data are relative to. The `interval` is the intended
    /// time delta between samples.
    pub fn new(
        product: &str,
        reference_timestamp: ReferenceTimestamp,
        interval: SamplingInterval,
    ) -> (profile: Self)
        ensures
            profile.wf(),
            profile@ == (ProfileView {
                product: product@,
                interval,
                global_libs: Seq::empty(),
                kernel_libs: LibsView::empty(),
                categories: seq![
                    CategoryView {
                        name: "Other"@,
                        color: CategoryColor::Grey,
                        subcategories: Seq::empty(),
                    },
                ],
                processes: Seq::empty(),
                threads: Seq::empty(),
                reference_timestamp,
                strings: Seq::empty(),
                marker_schemas: Seq::empty(),
            }),
    {
        let mut categories: Vec<Category> = Vec::new();
        categories.push(Category::new("Other", CategoryColor::Grey));
        let profile: Profile = Profile {
            interval,
            product: product.to_string(),
            threads: Vec::new(),
            global_libs: GlobalLibTable::new(),
            kernel_libs: LibsWithRanges::new(),
            reference_timestamp,
            processes: Vec::new(),
            string_table: StringTable::new(),
            marker_schemas: Vec::new(),
            categories,
        };
        proof {
            profile.kernel_libs.lemma_wf(profile.global_libs@);
            assert(profile@.categories =~= seq![profile.categories@[0]@]);
            assert(profile@.processes =~= Seq::empty());
            assert(profile@.threads =~= Seq::empty());
            assert(profile@.marker_schemas =~= Seq::empty());
        }
        profile
    }

    /// Change the declared sampling interval.
    pub fn set_interval(&mut self, interval: SamplingInterval)
        ensures
            final(self)@.continues(old(self)@),
            old(self).wf() ==> final(self).wf(),
            final(self)@ == (ProfileView { interval, ..old(self)@ }),
    {
        self.interval = interval;
    }

    /// Change the reference timestamp.
    pub fn set_reference_timestamp(&mut self, reference_timestamp: ReferenceTimestamp)
        ensures
            final(self)@.continues(old(self)@),
            old(self).wf() ==> final(self).wf(),
            final(self)@ == (ProfileView { reference_timestamp, ..old(self)@ }),
    {
        self.reference_timestamp = reference_timestamp;
    }

    /// Change the product name.
    pub fn set_product(&mut self, product: &str)
        ensures
            final(self)@.continues(old(self)@),
            old(self).wf() ==> final(self).wf(),
            final(self)@ == (ProfileView { product: product@, ..old(self)@ }),
    {
        self.product = product.to_string();
    }

    /// Add a category and return its handle.
    ///
    /// Categories are used for stack frames and markers, as part of a "category pair".
    pub fn add_category(&mut self, name: &str, color: CategoryColor) -> (handle: CategoryHandle)
        requires
            old(self).wf(),
        ensures
            final(self)@.continues(old(self)@),
            final(self).wf(),
            handle.0 == old(self)@.categories.len() % 0x1_0000,
            final(self)@ == (ProfileView {
                categories: old(self)@.categories.push(
                    CategoryView { name: name@, color, subcategories: Seq::empty() },
                ),
                ..old(self)@
            }),
    {
        let index: usize = self.categories.len();
        assert(index as u16 == index % 0x1_0000) by (bit_vector);
        let category: Category = Category::new(name, color);
        proof {
            assert(categories_view(self.categories@.push(category)) =~= categories_view(
                self.categories@,
            ).push(category@));
        }
        self.categories.push(category);
        CategoryHandle(index as u16)
    }

    /// Add a subcategory for a category, and return the "category pair" handle.
    pub fn add_subcategory(&mut self, category: CategoryHandle, name: &str) -> (pair:
        CategoryPairHandle)
        requires
            old(self).wf(),
            category.0 < old(self)@.categories.len(),
            old(self)@.categories[category.0 as int].subcategories.len() <= u8::MAX,
        ensures
            final(self)@.continues(old(self)@),
            final(self).wf(),
            pair.0 == category,
            pair.1 matches Some(subcategory) && subcategory.0
                == old(self)@.categories[category.0 as int].subcategories.len(),
            final(self)@ == (ProfileView {
                categories: old(self)@.categories.update(
                    category.0 as int,
                    CategoryView {
                        subcategories: old(self)@.categories[category.0 as int].subcategories.push(
                            name@,
                        ),
                        ..old(self)@.categories[category.0 as int]
                    },
                ),
                ..old(self)@
            }),
    {
        let index: usize = category.0 as usize;
        assert(self@.categories[index as int] == self.categories@[index as int]@);
        let subcategory = self.categories[index].add_subcategory(name);
        proof {
            assert(self@.categories =~= old(self)@.categories.update(
                index as int,
                self.categories@[index as int]@,
            ));
        }
        CategoryPairHandle(category, Some(subcategory))
    }

    /// Add an empty process. The name, pid and start time can be changed afterwards,
    /// but they are required here because they have to be present in the profile JSON.
    pub fn add_process(&mut self, name: &str, pid: u32, start_time: Timestamp) -> (handle:
        ProcessHandle)
        requires
            old(self).wf(),
        ensures
            final(self)@.continues(old(self)@),
            final(self).wf(),
            handle.0 == old(self)@.processes.len(),
            final(self)@ == (ProfileView {
                processes: old(self)@.processes.push(
                    ProcessView {
                        pid,
                        name: name@,
                        threads: Seq::empty(),
                        start_time,
                        end_time: None,
                        libs: LibsView::empty(),
                    },
                ),
                ..old(self)@
            }),
    {
        let handle: ProcessHandle = ProcessHandle(self.processes.len());
        let process: Process = Process::new(name, pid, start_time);
        self.processes.push(process);
        proof {
            process.lemma_wf(self.global_libs@);
            assert(self@.processes =~= old(self)@.processes.push(process@));
            lemma_threads_of_new_process(self@.threads, handle.0 as int);
            assert forall|p: int| 0 <= p < self@.processes.len() implies {
                &&& (#[trigger] self@.processes[p]).libs.valid()
                &&& self@.processes[p].threads == threads_of(self@.threads, p)
            } by {
                if p < handle.0 {
                    assert(self@.processes[p] == old(self)@.processes[p]);
                }
            }
            assert forall|t: int| 0 <= t < self@.threads.len() implies {
                &&& (#[trigger] self@.threads[t]).valid(self@.global_libs)
                &&& self@.threads[t].process.0 < self@.processes.len()
            } by {
                assert(self@.threads[t] == old(self)@.threads[t]);
            }
        }
        handle
    }

    /// Change the start time of a process.
    pub fn set_process_start_time(&mut self, process: ProcessHandle, start_time: Timestamp)
        requires
            old(self).wf(),
            process.0 < old(self)@.processes.len(),
        ensures
            final(self)@.continues(old(self)@),
            final(self).wf(),
            final(self)@ == old(self)@.with_process(
                process,
                (ProcessView { start_time, ..old(self)@.processes[process.0 as int] }),
            ),
    {
        self.processes[process.0].set_start_time(start_time);
        proof {
            self.lemma_process_changed(*old(self), process);
        }
    }

    /// Set the end time of a process.
    pub fn set_process_end_time(&mut self, process: ProcessHandle, end_time: Timestamp)
        requires
            old(self).wf(),
            process.0 < old(self)@.processes.len(),
        ensures
            final(self)@.continues(old(self)@),
            final(self).wf(),
            final(self)@ == old(self)@.with_process(
                process,
                (ProcessView {
                    end_time: Some(end_time),
                    ..old(self)@.processes[process.0 as int]
                }),
            ),
    {
        self.processes[process.0].set_end_time(end_time);
        proof {
            self.lemma_process_changed(*old(self), process);
        }
    }

    /// Change the name of a process.
    pub fn set_process_name(&mut self, process: ProcessHandle, name: &str)
        requires
            old(self).wf(),
            process.0 < old(self)@.processes.len(),
        ensures
            final(self)@.continues(old(self)@),
            final(self).wf(),
            final(self)@ == old(self)@.with_process(
                process,
                (ProcessView { name: name@, ..old(self)@.processes[process.0 as int] }),
            ),
    {
        self.processes[process.0].set_name(name);
        proof {
            self.lemma_process_changed(*old(self), process);
        }
    }

    /// Add a library which is loaded into a process. This allows symbolication of native
    /// stacks once the profile is opened in the Firefox Profiler.
    ///
    /// Each library covers an address range in the virtual memory of a process. Future calls
    /// to [`Profile::add_sample`] with native frames resolve the frame's code address with
    /// respect to the currently loaded kernel and process libraries.
    pub fn add_lib(&mut self, process: ProcessHandle, library: LibraryInfo)
        requires
            old(self).wf(),
            process.0 < old(self)@.processes.len(),
        ensures
            final(self)@.continues(old(self)@),
            final(self).wf(),
            final(self)@ == old(self)@.with_process(
                process,
                (ProcessView {
                    libs: old(self)@.processes[process.0 as int].libs.added(library),
                    ..old(self)@.processes[process.0 as int]
                }),
            ),
    {
        self.processes[process.0].add_lib(library);
        proof {
            self.lemma_process_changed(*old(self), process);
        }
    }

    /// Mark the library at the specified base address in the specified process as unloaded,
    /// so that future calls to [`Profile::add_sample`] know about the unloading.
    pub fn unload_lib(&mut self, process: ProcessHandle, base_address: u64)
        requires
            old(self).wf(),
            process.0 < old(self)@.processes.len(),
        ensures
            final(self)@.continues(old(self)@),
            final(self).wf(),
            final(self)@ == old(self)@.with_process(
                process,
                (ProcessView {
                    libs: old(self)@.processes[process.0 as int].libs.unloaded(base_address),
                    ..old(self)@.processes[process.0 as int]
                }),
            ),
    {
        self.processes[process.0].unload_lib(base_address);
        proof {
            self.lemma_process_changed(*old(self), process);
        }
    }

    /// Add a kernel library. This allows symbolication of kernel stacks once the profile is
    /// opened in the Firefox Profiler. Kernel libraries are global and not tied to a process.
    ///
    /// Each kernel library covers an address range in the kernel address space, which is
    /// global across all processes. Future calls to [`Profile::add_sample`] with native
    /// frames resolve the frame's code address with respect to the currently loaded kernel
    /// and process libraries.
    pub fn add_kernel_lib(&mut self, library: LibraryInfo)
        requires
            old(self).wf(),
        ensures
            final(self)@.continues(old(self)@),
            final(self).wf(),
            final(self)@ == (ProfileView {
                kernel_libs: old(self)@.kernel_libs.added(library),
                ..old(self)@
            }),
    {
        self.kernel_libs.add_lib(library);
        proof {
            self.kernel_libs.lemma_wf(self.global_libs@);
        }
    }

    /// Mark the kernel library at the specified base address in the specified process as
    /// unloaded, so that future calls to [`Profile::add_sample`] know about the unloading.
    pub fn unload_kernel_lib(&mut self, base_address: u64)
        requires
            old(self).wf(),
        ensures
            final(self)@.continues(old(self)@),
            final(self).wf(),
            final(self)@ == (ProfileView {
                kernel_libs: old(self)@.kernel_libs.unloaded(base_address),
                ..old(self)@
            }),
    {
        self.kernel_libs.unload_lib(base_address);
        proof {
            self.kernel_libs.lemma_wf(self.global_libs@);
        }
    }

    /// A change of one process, but for its threads, keeps the profile in order.
    proof fn lemma_process_changed(self, before: Profile, process: ProcessHandle)
        requires
            before.wf(),
            process.0 < before.processes@.len(),
            self.processes@ == before.processes@.update(
                process.0 as int,
                self.processes@[process.0 as int],
            ),
            self == (Profile { processes: self.processes, ..before }),
            self.processes@[process.0 as int].wf(before.global_libs@),
            self.processes@[process.0 as int]@.threads
                == before.processes@[process.0 as int]@.threads,
        ensures
            self.wf(),
            self@ == before@.with_process(process, self.processes@[process.0 as int]@),
    {
        let changed = self.processes@[process.0 as int];
        changed.lemma_wf(before.global_libs@);
        assert(self@.marker_schemas == before@.marker_schemas);
        assert(self@.processes =~= before@.processes.update(process.0 as int, changed@));
        assert forall|p: int| 0 <= p < self@.processes.len() implies {
            &&& (#[trigger] self@.processes[p]).libs.valid()
            &&& self@.processes[p].threads == threads_of(self@.threads, p)
        } by {
            assert(before@.processes[p].libs.valid());
        }
        assert forall|t: int| 0 <= t < self@.threads.len() implies {
            &&& (#[trigger] self@.threads[t]).valid(self@.global_libs)
            &&& self@.threads[t].process.0 < self@.processes.len()
        } by {
            assert(before@.threads[t].valid(before@.global_libs));
        }
        assert forall|p: int| 0 <= p < self.processes@.len() implies (
        #[trigger] self.processes@[p]).wf(self.global_libs@) by {
            assert(before.processes@[p].wf(self.global_libs@));
        }
    }

    /// A change of one thread, but for its process, keeps the profile in order.
    proof fn lemma_thread_changed(self, before: Profile, thread: ThreadHandle)
        requires
            before.wf(),
            thread.0 < before.threads@.len(),
            self.threads@ == before.threads@.update(
                thread.0 as int,
                self.threads@[thread.0 as int],
            ),
            self == (Profile { threads: self.threads, ..before }),
            self.threads@[thread.0 as int].wf(before.global_libs@),
            self.threads@[thread.0 as int]@.process == before.threads@[thread.0 as int]@.process,
        ensures
            self.wf(),
            self@ == before@.with_thread(thread, self.threads@[thread.0 as int]@),
    {
        let changed = self.threads@[thread.0 as int];
        changed.lemma_wf(before.global_libs@);
        assert(self@.marker_schemas == before@.marker_schemas);
        assert(self@.threads =~= before@.threads.update(thread.0 as int, changed@));
        assert forall|t: int| 0 <= t < self@.threads.len() implies {
            &&& (#[trigger] self@.threads[t]).valid(self@.global_libs)
            &&& self@.threads[t].process.0 < self@.processes.len()
        } by {
            assert(before@.threads[t].valid(before@.global_libs));
        }
        assert(self@.processes == before@.processes);
        assert forall|p: int| 0 <= p < self@.processes.len() implies {
            &&& (#[trigger] self@.processes[p]).libs.valid()
            &&& self@.processes[p].threads == threads_of(self@.threads, p)
        } by {
            assert(before@.processes[p].libs.valid());
            lemma_threads_of_same(self@.threads, before@.threads, p);
        }
        assert forall|t: int| 0 <= t < self.threads@.len() implies (#[trigger] self.threads@[t]).wf(
            self.global_libs@,
        ) by {
            assert(before.threads@[t].wf(self.global_libs@));
        }
    }

    /// Add an empty thread to the specified process.
    pub fn add_thread(
        &mut self,
        process: ProcessHandle,
        tid: u32,
        start_time: Timestamp,
        is_main: bool,
    ) -> (handle: ThreadHandle)
        requires
            old(self).wf(),
            process.0 < old(self)@.processes.len(),
        ensures
            final(self)@.continues(old(self)@),
            final(self).wf(),
            handle.0 == old(self)@.threads.len(),
            final(self)@ == (ProfileView {
                threads: old(self)@.threads.push(
                    ThreadView {
                        process,
                        tid,
                        name: None,
                        start_time,
                        end_time: None,
                        is_main,
                        tables: TablesView::empty(),
                        samples: Seq::empty(),
                        markers: Seq::empty(),
                    },
                ),
                ..old(self)@
            }).with_process(
                process,
                (ProcessView {
                    threads: old(self)@.processes[process.0 as int].threads.push(handle),
                    ..old(self)@.processes[process.0 as int]
                }),
            ),
    {
        let handle: ThreadHandle = ThreadHandle(self.threads.len());
        let thread: Thread = Thread::new(process, tid, start_time, is_main);
        self.threads.push(thread);
        self.processes[process.0].add_thread(handle);
        proof {
            let before = old(self)@;
            let changed = self.processes@[process.0 as int];
            assert(old(self).processes@[process.0 as int].wf(self.global_libs@));
            changed.lemma_wf(self.global_libs@);
            thread.lemma_wf(self.global_libs@);
            assert(self@.threads =~= before.threads.push(thread@));
            assert(self@.threads.drop_last() =~= before.threads);
            assert(self@.processes =~= before.processes.update(process.0 as int, changed@));
            assert forall|p: int| 0 <= p < self@.processes.len() implies {
                &&& (#[trigger] self@.processes[p]).libs.valid()
                &&& self@.processes[p].threads == threads_of(self@.threads, p)
            } by {
                assert(before.processes[p].libs.valid());
            }
            assert forall|t: int| 0 <= t < self@.threads.len() implies {
                &&& (#[trigger] self@.threads[t]).valid(self@.global_libs)
                &&& self@.threads[t].process.0 < self@.processes.len()
            } by {
                if t < handle.0 {
                    assert(before.threads[t].valid(before.global_libs));
                }
            }
        }
        handle
    }

    /// Change the name of a thread.
    pub fn set_thread_name(&mut self, thread: ThreadHandle, name: &str)
        requires
            old(self).wf(),
            thread.0 < old(self)@.threads.len(),
        ensures
            final(self)@.continues(old(self)@),
            final(self).wf(),
            final(self)@ == old(self)@.with_thread(
                thread,
                (ThreadView { name: Some(name@), ..old(self)@.threads[thread.0 as int] }),
            ),
    {
        self.threads[thread.0].set_name(name);
        proof {
            self.lemma_thread_changed(*old(self), thread);
        }
    }

    /// Change the start time of a thread.
    pub fn set_thread_start_time(&mut self, thread: ThreadHandle, start_time: Timestamp)
        requires
            old(self).wf(),
            thread.0 < old(self)@.threads.len(),
        ensures
            final(self)@.continues(old(self)@),
            final(self).wf(),
            final(self)@ == old(self)@.with_thread(
                thread,
                (ThreadView { start_time, ..old(self)@.threads[thread.0 as int] }),
            ),
    {
        self.threads[thread.0].set_start_time(start_time);
        proof {
            self.lemma_thread_changed(*old(self), thread);
        }
    }

    /// Set the end time of a thread.
    pub fn set_thread_end_time(&mut self, thread: ThreadHandle, end_time: Timestamp)
        requires
            old(self).wf(),
            thread.0 < old(self)@.threads.len(),
        ensures
            final(self)@.continues(old(self)@),
            final(self).wf(),
            final(self)@ == old(self)@.with_thread(
                thread,
                (ThreadView { end_time: Some(end_time), ..old(self)@.threads[thread.0 as int] }),
            ),
    {
        self.threads[thread.0].set_end_time(end_time);
        proof {
            self.lemma_thread_changed(*old(self), thread);
        }
    }

    /// Turn the string into in a [`StringHandle`], for use in [`Frame::Label`].
    pub fn intern_string(&mut self, s: &str) -> (handle: StringHandle)
        requires
            old(self).wf(),
        ensures
            final(self)@.continues(old(self)@),
            final(self).wf(),
            final(self)@ == (ProfileView {
                strings: interned(old(self)@.strings, s@),
                ..old(self)@
            }),
            handle.0 < final(self)@.strings.len(),
            final(self)@.strings[handle.0 as int] == s@,
    {
        proof {
            interned_is_stable(self@.strings, s@);
        }
        let index: usize = self.string_table.index_for_string(s);
        StringHandle(index)
    }

    /// Add a sample with a CPU delta of zero. Internally, multiple consecutive
    /// samples with a delta of zero will be combined into one sample with an accumulated
    /// weight.
    pub fn add_sample_same_stack_zero_cpu(
        &mut self,
        thread: ThreadHandle,
        timestamp: Timestamp,
        weight: i32,
    )
        requires
            old(self).wf(),
            thread.0 < old(self)@.threads.len(),
            idle_weight_fits(old(self)@.threads[thread.0 as int].samples, weight),
        ensures
            final(self)@.continues(old(self)@),
            final(self).wf(),
            final(self)@ == old(self)@.with_thread(
                thread,
                (ThreadView {
                    samples: with_idle_sample(
                        old(self)@.threads[thread.0 as int].samples,
                        timestamp,
                        weight,
                    ),
                    ..old(self)@.threads[thread.0 as int]
                }),
            ),
    {
        assert(self@.threads[thread.0 as int] == self.threads@[thread.0 as int]@);
        self.threads[thread.0].add_sample_same_stack_zero_cpu(timestamp, weight);
        proof {
            self.lemma_thread_changed(*old(self), thread);
        }
    }

    /// Adding to the libraries of the profile keeps processes and threads in order.
    proof fn lemma_libs_extended(self, before: Profile, process: usize)
        requires
            before.wf(),
            process < before.processes@.len(),
            extends(self.global_libs@, before.global_libs@),
            self.global_libs@.no_duplicates(),
            self.processes@ == before.processes@.update(
                process as int,
                self.processes@[process as int],
            ),
            self.processes@[process as int].wf(self.global_libs@),
            self.processes@[process as int]@ == before.processes@[process as int]@,
            self.kernel_libs.wf(self.global_libs@),
            self.kernel_libs@ == before.kernel_libs@,
            self == (Profile {
                processes: self.processes,
                kernel_libs: self.kernel_libs,
                global_libs: self.global_libs,
                ..before
            }),
        ensures
            self.wf(),
            self@ == (ProfileView { global_libs: self.global_libs@, ..before@ }),
    {
        assert(self@.marker_schemas == before@.marker_schemas);
        assert(self@.processes =~= before@.processes);
        assert forall|t: int| 0 <= t < self.threads@.len() implies (#[trigger] self.threads@[t]).wf(
            self.global_libs@,
        ) by {
            before.threads@[t].lemma_extended(before.global_libs@, self.global_libs@);
        }
        assert forall|p: int| 0 <= p < self.processes@.len() implies (
        #[trigger] self.processes@[p]).wf(self.global_libs@) by {
            if p != process {
                before.processes@[p].lemma_extended(before.global_libs@, self.global_libs@);
            }
        }
        assert forall|t: int| 0 <= t < self@.threads.len() implies {
            &&& (#[trigger] self@.threads[t]).valid(self@.global_libs)
            &&& self@.threads[t].process.0 < self@.processes.len()
        } by {
            assert(before@.threads[t].valid(before@.global_libs));
            self.threads@[t].lemma_wf(self.global_libs@);
        }
    }

    /// Where an address of a process is.
    fn convert_address(&mut self, process: ProcessHandle, address: u64, Ghost(state): Ghost<
        StackState,
    >) -> (location: InternalFrameLocation)
        requires
            old(self).wf(),
            process.0 < old(self)@.processes.len(),
            state.globals == old(self)@.global_libs,
        ensures
            final(self).wf(),
            final(self)@ == (ProfileView { global_libs: final(self)@.global_libs, ..old(self)@ }),
            ({
                let found = resolve_address(
                    old(self)@.kernel_libs,
                    old(self)@.processes[process.0 as int].libs,
                    address,
                );
                &&& state.located(found) == (StackState {
                    globals: final(self)@.global_libs,
                    ..state
                })
                &&& location == state.located(found).internal_location(found)
            }),
            final(self)@.global_libs.len() <= usize::MAX,
    {
        assert(self@.processes[process.0 as int] == self.processes@[process.0 as int]@);
        let location: InternalFrameLocation = self.processes[process.0].convert_address(
            &mut self.global_libs,
            &mut self.kernel_libs,
            address,
        );
        proof {
            let found = resolve_address(
                old(self)@.kernel_libs,
                old(self)@.processes[process.0 as int].libs,
                address,
            );
            if let CodeLocation::InLib(_, lib) = found {
                interned_is_stable(old(self).global_libs@, lib);
            }
            self.lemma_libs_extended(*old(self), process.0);
            self.global_libs.lemma_fits();
        }
        location
    }

    /// Where a frame of a thread is.
    fn convert_frame(&mut self, thread: ThreadHandle, frame: Frame, Ghost(stack): Ghost<
        Option<usize>,
    >) -> (location: InternalFrameLocation)
        requires
            old(self).wf(),
            thread.0 < old(self)@.threads.len(),
            frame.is_known(old(self)@.strings),
            stack_exists(old(self)@.threads[thread.0 as int].tables, stack),
        ensures
            final(self).wf(),
            ({
                let state = (StackState { stack, ..old(self)@.stack_state(thread) });
                let found = frame.location(
                    old(self)@.kernel_libs,
                    old(self)@.process_of(thread).libs,
                    old(self)@.strings,
                );
                &&& final(self)@ == old(self)@.with_stack_state(thread, state.located(found))
                &&& location == state.located(found).internal_location(found)
                &&& state.located(found).fits()
            }),
    {
        assert(self@.threads[thread.0 as int] == self.threads@[thread.0 as int]@);
        let process: ProcessHandle = self.threads[thread.0].process();
        let ghost state = (StackState { stack, ..old(self)@.stack_state(thread) });
        let ghost found = frame.location(
            self@.kernel_libs,
            self@.process_of(thread).libs,
            self@.strings,
        );
        proof {
            self.threads@[thread.0 as int].lemma_wf(self.global_libs@);
            self.global_libs.lemma_fits();
            assert(self@.threads =~= self@.threads.update(
                thread.0 as int,
                ThreadView { tables: state.tables, ..self@.threads[thread.0 as int] },
            ));
        }
        match frame {
            Frame::InstructionPointer(address) => {
                let location: InternalFrameLocation = self.convert_address(
                    process,
                    address,
                    Ghost(state),
                );
                assert(state.located(found).globals == self@.global_libs);
                location
            },
            Frame::ReturnAddress(address) => {
                let call_address: u64 = if address > 0 {
                    address - 1
                } else {
                    0
                };
                let location: InternalFrameLocation = self.convert_address(
                    process,
                    call_address,
                    Ghost(state),
                );
                assert(state.located(found).globals == self@.global_libs);
                location
            },
            Frame::Label(label) => {
                let index: usize = self.threads[thread.0].convert_string(
                    self.string_table.get(label.0),
                    &self.global_libs,
                );
                proof {
                    self.lemma_thread_changed(*old(self), thread);
                    self.threads@[thread.0 as int].lemma_wf(self.global_libs@);
                }
                InternalFrameLocation::Label(index)
            },
        }
    }

    /// Record one more call of a thread.
    fn record_call(
        &mut self,
        thread: ThreadHandle,
        stack: Option<usize>,
        frame: Frame,
        category_pair: CategoryPairHandle,
    ) -> (index: usize)
        requires
            old(self).wf(),
            thread.0 < old(self)@.threads.len(),
            frame.is_known(old(self)@.strings),
            stack_exists(old(self)@.threads[thread.0 as int].tables, stack),
        ensures
            final(self).wf(),
            ({
                let state = (StackState { stack, ..old(self)@.stack_state(thread) });
                let found = frame.location(
                    old(self)@.kernel_libs,
                    old(self)@.process_of(thread).libs,
                    old(self)@.strings,
                );
                let after = state.called((found, category_pair));
                &&& final(self)@ == old(self)@.with_stack_state(thread, after)
                &&& after.stack == Some(index)
                &&& after.fits()
            }),
            stack_exists(final(self)@.threads[thread.0 as int].tables, Some(index)),
    {
        let ghost state = (StackState { stack, ..old(self)@.stack_state(thread) });
        let ghost found = frame.location(
            self@.kernel_libs,
            self@.process_of(thread).libs,
            self@.strings,
        );
        assert(self@.threads[thread.0 as int] == self.threads@[thread.0 as int]@);
        let location: InternalFrameLocation = self.convert_frame(thread, frame, Ghost(stack));
        let internal_frame: InternalFrame = InternalFrame { location, category_pair };
        let ghost located = state.located(found);
        let ghost middle = *self;
        proof {
            assert(state.valid());
            lemma_located(state, found);
            assert(self@.threads[thread.0 as int].tables == located.tables);
            assert(self@.threads[thread.0 as int] == self.threads@[thread.0 as int]@);
            assert(located.tables.location_ok(located.globals, location));
        }
        let frame_index: usize = self.threads[thread.0].frame_index_for_frame(
            internal_frame,
            &self.global_libs,
        );
        proof {
            self.threads@[thread.0 as int].lemma_wf(self.global_libs@);
            lemma_with_frame(located.tables, located.globals, internal_frame);
        }
        let index: usize = self.threads[thread.0].stack_index_for_stack(
            stack,
            frame_index,
            &self.global_libs,
        );
        proof {
            assert(self.threads@ =~= middle.threads@.update(
                thread.0 as int,
                self.threads@[thread.0 as int],
            ));
            self.lemma_thread_changed(middle, thread);
            self.threads@[thread.0 as int].lemma_wf(self.global_libs@);
            self.global_libs.lemma_fits();
            let after = state.called((found, category_pair));
            assert(after == located.framed(internal_frame));
            assert(self@ =~= old(self)@.with_stack_state(thread, after));
        }
        index
    }

    /// The index of the stack that `frames` make up.
    ///
    /// The frames are ordered from caller to callee, i.e. root function first, pc last.
    pub fn stack_index_for_frames(
        &mut self,
        thread: ThreadHandle,
        mut frames: impl Iterator<Item = (Frame, CategoryPairHandle)>,
    ) -> (stack: Option<usize>)
        requires
            old(self).wf(),
            thread.0 < old(self)@.threads.len(),
            frames.obeys_prophetic_iter_laws(),
            frames.decrease() is Some,
            forall|k: int|
                0 <= k < frames.remaining().len() ==> (#[trigger] frames.remaining()[k]).0.is_known(
                    old(self)@.strings,
                ),
        ensures
            final(self)@.continues(old(self)@),
            final(self).wf(),
            ({
                let calls = old(self)@.calls(thread, frames.remaining());
                let after = old(self)@.stack_state(thread).called_all(calls);
                &&& final(self)@ == old(self)@.with_stack_state(thread, after)
                &&& stack == after.stack
                &&& final(self)@.threads[thread.0 as int].tables.call_stack(
                    final(self)@.global_libs,
                    stack,
                ) == calls
            }),
            stack_exists(final(self)@.threads[thread.0 as int].tables, stack),
    {
        let ghost all = frames.remaining();
        let ghost initial = self@.stack_state(thread);
        let ghost calls = self@.calls(thread, all);
        let ghost mut taken: int = 0;
        let mut stack: Option<usize> = None;
        proof {
            self.threads@[thread.0 as int].lemma_wf(self.global_libs@);
            self.global_libs.lemma_fits();
            assert(calls.take(0) =~= Seq::empty());
            assert(self@ =~= self@.with_stack_state(thread, initial));
            assert(all.skip(0) =~= all);
        }
        loop
            invariant
                self.wf(),
                old(self).wf(),
                thread.0 < old(self)@.threads.len(),
                frames.obeys_prophetic_iter_laws(),
                frames.decrease() is Some,
                0 <= taken <= all.len(),
                frames.remaining() == all.skip(taken),
                forall|k: int|
                    0 <= k < all.len() ==> (#[trigger] all[k]).0.is_known(old(self)@.strings),
                initial == old(self)@.stack_state(thread),
                calls == old(self)@.calls(thread, all),
                self@ == old(self)@.with_stack_state(
                    thread,
                    initial.called_all(calls.take(taken)),
                ),
                stack == initial.called_all(calls.take(taken)).stack,
                initial.called_all(calls.take(taken)).fits(),
                stack_exists(self@.threads[thread.0 as int].tables, stack),
            ensures
                taken == all.len(),
            decreases frames.decrease()->0,
        {
            match frames.next() {
                Some((frame, category_pair)) => {
                    proof {
                        assert(all.skip(taken)[0] == all[taken]);
                        assert(calls.take(taken + 1).drop_last() =~= calls.take(taken));
                        assert(all.skip(taken).skip(1) =~= all.skip(taken + 1));
                        assert(self@.process_of(thread) == old(self)@.process_of(thread));
                    }
                    let index: usize = self.record_call(thread, stack, frame, category_pair);
                    proof {
                        taken = taken + 1;
                        assert(self@ =~= old(self)@.with_stack_state(
                            thread,
                            initial.called_all(calls.take(taken)),
                        ));
                    }
                    stack = Some(index);
                },
                None => {
                    break;
                },
            }
        }
        proof {
            assert(calls.take(taken) =~= calls);
            old(self).threads@[thread.0 as int].lemma_wf(old(self).global_libs@);
            assert(old(self)@.threads[thread.0 as int] == old(self).threads@[thread.0 as int]@);
            recorded_calls_are_read_back(initial, calls);
            assert(initial.calls() =~= Seq::empty());
            assert(initial.called_all(calls).calls() =~= calls);
        }
        stack
    }

    /// Add a sample to the given thread.
    ///
    /// The sample has a timestamp, a stack, a CPU delta, and a weight.
    ///
    /// The stack frames are supplied as an iterator. Every frame has an associated
    /// category pair.
    ///
    /// The CPU delta is the amount of CPU time that the CPU was busy with work for this
    /// thread since the previous sample. It should always be less than or equal the
    /// time delta between the sample timestamps.
    ///
    /// The weight affects the sample's stack's score in the call tree. You usually set
    /// this to 1. You can use weights greater than one if you want to combine multiple
    /// adjacent samples with the same stack into one sample, to save space. However,
    /// this discards any CPU deltas between the adjacent samples, so it's only really
    /// useful if no CPU time has occurred between the samples, and for that use case the
    /// [`Profile::add_sample_same_stack_zero_cpu`] method should be preferred.
    ///
    /// You can can also set the weight to something negative, such as -1, to create a
    /// "diff profile". For example, if you have partitioned your samples into "before"
    /// and "after" groups, you can use -1 for all "before" samples and 1 for all "after"
    /// samples, and the call tree will show you which stacks occur more frequently in
    /// the "after" part of the profile, by sorting those stacks to the top.
    pub fn add_sample(
        &mut self,
        thread: ThreadHandle,
        timestamp: Timestamp,
        frames: impl Iterator<Item = (Frame, CategoryPairHandle)>,
        cpu_delta: CpuDelta,
        weight: i32,
    )
        requires
            old(self).wf(),
            thread.0 < old(self)@.threads.len(),
            frames.obeys_prophetic_iter_laws(),
            frames.decrease() is Some,
            forall|k: int|
                0 <= k < frames.remaining().len() ==> (#[trigger] frames.remaining()[k]).0.is_known(
                    old(self)@.strings,
                ),
        ensures
            final(self)@.continues(old(self)@),
            final(self).wf(),
            ({
                let calls = old(self)@.calls(thread, frames.remaining());
                let after = old(self)@.stack_state(thread).called_all(calls);
                &&& final(self)@ == old(self)@.with_stack_state(thread, after).with_sample(
                    thread,
                    (SampleRow { timestamp, stack: after.stack, cpu_delta, weight }),
                )
                &&& final(self)@.threads[thread.0 as int].tables.call_stack(
                    final(self)@.global_libs,
                    after.stack,
                ) == calls
            }),
    {
        let stack: Option<usize> = self.stack_index_for_frames(thread, frames);
        let ghost middle = *self;
        self.threads[thread.0].add_sample(timestamp, stack, cpu_delta, weight);
        proof {
            self.lemma_thread_changed(middle, thread);
        }
    }

    /// There is a schema under the name `key`.
    fn has_schema(&self, key: &str) -> (r: bool)
        ensures
            r == !lacks_schema(self@.marker_schemas, key@),
    {
        let mut i: usize = 0;
        while i < self.marker_schemas.len()
            invariant
                i <= self.marker_schemas@.len(),
                forall|k: int| 0 <= k < i ==> (#[trigger] self@.marker_schemas[k]).0 != key@,
            decreases self.marker_schemas@.len() - i,
        {
            assert(self@.marker_schemas[i as int].0 == self.marker_schemas@[i as int].0@);
            if is_same_text(self.marker_schemas[i].0, key) {
                return true;
            }
            i = i + 1;
        }
        false
    }

    /// Add the schema of a marker type, unless there is one of that name.
    pub fn add_marker_schema(&mut self, key: &'static str, schema: MarkerSchema)
        requires
            old(self).wf(),
        ensures
            final(self)@.continues(old(self)@),
            final(self).wf(),
            final(self)@ == old(self)@.with_schema(key@, schema@),
    {
        if !self.has_schema(key) {
            self.marker_schemas.push((key, schema));
            proof {
                assert(self@.marker_schemas =~= old(self)@.marker_schemas.push((key@, schema@)));
                assert(self@.processes =~= old(self)@.processes);
                assert(self@.threads =~= old(self)@.threads);
            }
        }
    }

    /// Add a marker with the given data to the given thread.
    pub fn add_marker_data(
        &mut self,
        thread: ThreadHandle,
        name: &str,
        data: Json,
        timing: MarkerTiming,
    )
        requires
            old(self).wf(),
            thread.0 < old(self)@.threads.len(),
        ensures
            final(self)@.continues(old(self)@),
            final(self).wf(),
            final(self)@ == old(self)@.with_marker(thread, name@, timing, data@),
    {
        assert(self@.threads[thread.0 as int] == self.threads@[thread.0 as int]@);
        self.threads[thread.0].add_marker(name, data, timing, &self.global_libs);
        proof {
            self.lemma_thread_changed(*old(self), thread);
        }
    }

    /// Add a marker to the given thread.
    pub fn add_marker<T: ProfilerMarker>(
        &mut self,
        thread: ThreadHandle,
        name: &str,
        marker: T,
        timing: MarkerTiming,
    )
        requires
            old(self).wf(),
            thread.0 < old(self)@.threads.len(),
        ensures
            final(self)@.continues(old(self)@),
            final(self).wf(),
            exists|data: Json| #[trigger]
                call_ensures(T::json_marker_data, (&marker,), data) && if lacks_schema(
                    old(self)@.marker_schemas,
                    T::MARKER_TYPE_NAME@,
                ) {
                    exists|schema: MarkerSchema| #[trigger]
                        call_ensures(T::schema, (), schema) && final(self)@ == old(
                            self,
                        )@.with_schema(T::MARKER_TYPE_NAME@, schema@).with_marker(
                            thread,
                            name@,
                            timing,
                            data@,
                        )
                } else {
                    final(self)@ == old(self)@.with_marker(thread, name@, timing, data@)
                },
    {
        if !self.has_schema(T::MARKER_TYPE_NAME) {
            let schema: MarkerSchema = T::schema();
            self.add_marker_schema(T::MARKER_TYPE_NAME, schema);
            assert(call_ensures(T::schema, (), schema));
        }
        let data: Json = marker.json_marker_data();
        assert(call_ensures(T::json_marker_data, (&marker,), data));
        self.add_marker_data(thread, name, data, timing);
    }

    /// The indexes of the threads, in the order of the profile JSON: process by process, and
    /// thread by thread.
    fn list_threads(&self) -> (order: Vec<usize>)
        requires
            self.wf(),
        ensures
            is_listing(
                order@,
                self@.threads.len(),
                |a: usize, b: usize| self@.thread_listed_le(a, b),
            ),
    {
        let processes: Vec<usize> = sort_indexes(
            &self.processes,
            &index_range(self.processes.len()),
        );
        proof {
            lemma_all_indexes(self.processes@.len());
            assert(self.processes@.len() == self.processes.len());
        }
        let mut order: Vec<usize> = Vec::new();
        let mut i: usize = 0;
        while i < processes.len()
            invariant
                self.wf(),
                i <= processes@.len(),
                processes@.no_duplicates(),
                forall|p: usize| processes@.contains(p) <==> p < self.processes@.len(),
                is_sorted(self.processes@, processes@),
                order@.no_duplicates(),
                forall|t: usize|
                    order@.contains(t) <==> t < self@.threads.len() && processes@.take(
                        i as int,
                    ).contains(self@.threads[t as int].process.0),
                forall|a: int, b: int|
                    0 <= a < b < order@.len() ==> self@.thread_listed_le(
                        #[trigger] order@[a],
                        #[trigger] order@[b],
                    ),
            decreases processes@.len() - i,
        {
            let process: usize = processes[i];
            proof {
                assert(processes@.contains(process));
                assert(self@.processes[process as int] == self.processes@[process as int]@);
                assert(self@.threads.len() == self.threads.len());
                lemma_threads_of(self@.threads, process as int);
            }
            let handles: &Vec<ThreadHandle> = self.processes[process].threads();
            let mut threads: Vec<usize> = sort_indexes(&self.threads, &thread_indexes(handles));
            let ghost before = order@;
            let ghost added = threads@;
            order.append(&mut threads);
            proof {
                assert(handles@ == threads_of(self@.threads, process as int));
                assert forall|t: usize| #[trigger] added.contains(t) <==> t < self@.threads.len()
                    && self@.threads[t as int].process.0 == process by {
                    lemma_thread_indexes(handles@, t);
                }
                self.lemma_listing_grown(processes@, i as int, before, added);
                assert(order@ =~= before + added);
            }
            i = i + 1;
        }
        proof {
            assert(processes@.take(i as int) =~= processes@);
            assert forall|t: usize| order@.contains(t) <==> t < self@.threads.len() by {
                if t < self@.threads.len() {
                    let process = self@.threads[t as int].process.0;
                    assert(processes@.contains(process));
                }
            }
        }
        order
    }

    /// The threads of one more process, behind those of the processes before it.
    proof fn lemma_listing_grown(
        self,
        processes: Seq<usize>,
        i: int,
        before: Seq<usize>,
        added: Seq<usize>,
    )
        requires
            self.wf(),
            0 <= i < processes.len(),
            processes.no_duplicates(),
            forall|p: usize| processes.contains(p) <==> p < self.processes@.len(),
            is_sorted(self.processes@, processes),
            before.no_duplicates(),
            added.no_duplicates(),
            forall|t: usize|
                before.contains(t) <==> t < self@.threads.len() && processes.take(i).contains(
                    self@.threads[t as int].process.0,
                ),
            forall|t: usize|
                added.contains(t) <==> t < self@.threads.len()
                    && self@.threads[t as int].process.0 == processes[i],
            forall|a: int, b: int|
                0 <= a < b < before.len() ==> self@.thread_listed_le(
                    #[trigger] before[a],
                    #[trigger] before[b],
                ),
            is_sorted(self.threads@, added),
        ensures
            (before + added).no_duplicates(),
            forall|t: usize|
                (before + added).contains(t) <==> t < self@.threads.len() && processes.take(
                    i + 1,
                ).contains(self@.threads[t as int].process.0),
            forall|a: int, b: int|
                0 <= a < b < (before + added).len() ==> self@.thread_listed_le(
                    #[trigger] (before + added)[a],
                    #[trigger] (before + added)[b],
                ),
    {
        let both = before + added;
        let process = processes[i];
        assert forall|p: usize|
            processes.take(i + 1).contains(p) <==> processes.take(i).contains(p) || p
                == process by {
            if processes.take(i + 1).contains(p) {
                let longer = processes.take(i + 1);
                let j = choose|j: int| 0 <= j < longer.len() && longer[j] == p;
                if j < i {
                    assert(processes.take(i)[j] == p);
                }
            }
            if processes.take(i).contains(p) {
                let j = choose|j: int|
                    0 <= j < processes.take(i).len() && processes.take(i)[j] == p;
                assert(processes.take(i + 1)[j] == p);
            }
            assert(processes.take(i + 1)[i] == process);
        }
        assert forall|k: int| 0 <= k < before.len() implies before.contains(
            #[trigger] before[k],
        ) by {}
        assert forall|k: int| 0 <= k < added.len() implies added.contains(#[trigger] added[k]) by {}
        assert forall|t: usize| both.contains(t) <==> before.contains(t) || added.contains(t) by {
            if both.contains(t) {
                let k = choose|k: int| 0 <= k < both.len() && both[k] == t;
                if k < before.len() {
                    assert(before[k] == t);
                } else {
                    assert(added[k - before.len()] == t);
                }
            }
            if before.contains(t) {
                let k = choose|k: int| 0 <= k < before.len() && before[k] == t;
                assert(both[k] == t);
            }
            if added.contains(t) {
                let k = choose|k: int| 0 <= k < added.len() && added[k] == t;
                assert(both[before.len() + k] == t);
            }
        }
        assert(!processes.take(i).contains(process)) by {
            if processes.take(i).contains(process) {
                let j = choose|j: int|
                    0 <= j < processes.take(i).len() && processes.take(i)[j] == process;
                assert(processes[j] == processes[i]);
            }
        }
        assert forall|a: int, b: int|
            0 <= a < both.len() && 0 <= b < both.len() && a != b implies both[a] != both[b] by {
            if a < before.len() && b >= before.len() {
                assert(before.contains(before[a]));
                assert(added.contains(added[b - before.len()]));
            }
            if b < before.len() && a >= before.len() {
                assert(before.contains(before[b]));
                assert(added.contains(added[a - before.len()]));
            }
        }
        assert forall|a: int, b: int| 0 <= a < b < both.len() implies self@.thread_listed_le(
            #[trigger] both[a],
            #[trigger] both[b],
        ) by {
            if b >= before.len() {
                let y = added[b - before.len()];
                assert(added.contains(y));
                if a >= before.len() {
                    let x = added[a - before.len()];
                    assert(added.contains(x));
                    assert(stable_le(self.threads@[x as int], x, self.threads@[y as int], y));
                } else {
                    let x = before[a];
                    assert(before.contains(x));
                    let p = self@.threads[x as int].process.0;
                    let j = choose|j: int|
                        0 <= j < processes.take(i).len() && processes.take(i)[j] == p;
                    assert(processes[j] == p);
                    assert(processes.contains(p));
                    assert(processes.contains(process));
                    assert(stable_le(
                        self.processes@[p as int],
                        p,
                        self.processes@[process as int],
                        process,
                    ));
                }
            }
        }
    }

    /// The indexes of the marker schemas, in the order of the profile JSON.
    fn list_schemas(&self) -> (order: Vec<usize>)
        ensures
            is_listing(
                order@,
                self@.marker_schemas.len(),
                |a: usize, b: usize| self@.schema_listed_le(a, b),
            ),
    {
        let order: Vec<usize> = sort_indexes(
            &self.marker_schemas,
            &index_range(self.marker_schemas.len()),
        );
        proof {
            lemma_all_indexes(self.marker_schemas@.len());
            assert(self.marker_schemas@.len() == self.marker_schemas.len());
            assert forall|i: int, j: int| 0 <= i < j < order@.len() implies self@.schema_listed_le(
                #[trigger] order@[i],
                #[trigger] order@[j],
            ) by {
                assert(order@.contains(order@[i]));
                assert(order@.contains(order@[j]));
                assert(stable_le(
                    self.marker_schemas@[order@[i] as int],
                    order@[i],
                    self.marker_schemas@[order@[j] as int],
                    order@[j],
                ));
            }
        }
        order
    }

    /// The categories in the profile JSON.
    fn categories_to_json(&self) -> (json: Json)
        ensures
            json@ == categories_json(self@.categories),
    {
        let json: Json = column(
            &self.categories,
            category_cell,
            Ghost(|category: Category| category_json(category@)),
        );
        assert(json@->List_0 =~= categories_json(self@.categories)->List_0);
        json
    }

    /// The libraries in the profile JSON.
    fn libs_to_json(&self) -> (json: Json)
        ensures
            json@ == libs_json(self@.global_libs),
    {
        let ghost cell = |lib: LibView| lib_json(lib);
        let mut items: Vec<Json> = Vec::new();
        let mut i: usize = 0;
        while i < self.global_libs.len()
            invariant
                i <= self.global_libs@.len(),
                cell == (|lib: LibView| lib_json(lib)),
                items_view(items@) == self.global_libs@.take(i as int).map_values(cell),
            decreases self.global_libs@.len() - i,
        {
            let item: Json = self.global_libs.get(i).to_json();
            proof {
                let libs = self.global_libs@;
                assert(item@ == cell(libs[i as int]));
                assert(items_view(items@.push(item)) =~= items_view(items@).push(item@));
                assert(libs.take(i + 1).map_values(cell) =~= libs.take(i as int).map_values(
                    cell,
                ).push(cell(libs[i as int])));
            }
            items.push(item);
            i = i + 1;
        }
        assert(self.global_libs@.take(i as int) =~= self.global_libs@);
        list(items)
    }

    /// The marker schemas in the profile JSON.
    fn schemas_to_json(&self, order: &Vec<usize>) -> (json: Json)
        requires
            forall|k: int|
                0 <= k < order@.len() ==> (#[trigger] order@[k]) < self@.marker_schemas.len(),
        ensures
            json@ == schemas_json(self@, order@),
    {
        let ghost cell = |i: usize| schema_json(self@.marker_schemas[i as int].1);
        let mut items: Vec<Json> = Vec::new();
        let mut i: usize = 0;
        while i < order.len()
            invariant
                i <= order@.len(),
                forall|k: int|
                    0 <= k < order@.len() ==> (#[trigger] order@[k]) < self@.marker_schemas.len(),
                cell == (|i: usize| schema_json(self@.marker_schemas[i as int].1)),
                items_view(items@) == order@.take(i as int).map_values(cell),
            decreases order@.len() - i,
        {
            let index: usize = order[i];
            let item: Json = self.marker_schemas[index].1.to_json();
            proof {
                assert(item@ == cell(index));
                assert(items_view(items@.push(item)) =~= items_view(items@).push(item@));
                assert(order@.take(i + 1).map_values(cell) =~= order@.take(i as int).map_values(
                    cell,
                ).push(cell(index)));
            }
            items.push(item);
            i = i + 1;
        }
        assert(order@.take(i as int) =~= order@);
        list(items)
    }

    /// The threads in the profile JSON.
    ///
    /// The processed profile format has all threads from all processes in a flattened threads
    /// list. Each thread duplicates some information about its process, which allows the Firefox
    /// Profiler UI to group threads from the same process.
    fn threads_to_json(&self, order: &Vec<usize>) -> (json: Json)
        requires
            self.wf(),
            forall|k: int| 0 <= k < order@.len() ==> (#[trigger] order@[k]) < self@.threads.len(),
        ensures
            json@ == threads_json(self@, order@),
    {
        let ghost cell = |t: usize| listed_thread_json(self@, t);
        let mut items: Vec<Json> = Vec::new();
        let mut i: usize = 0;
        while i < order.len()
            invariant
                self.wf(),
                i <= order@.len(),
                forall|k: int|
                    0 <= k < order@.len() ==> (#[trigger] order@[k]) < self@.threads.len(),
                cell == (|t: usize| listed_thread_json(self@, t)),
                items_view(items@) == order@.take(i as int).map_values(cell),
            decreases order@.len() - i,
        {
            let index: usize = order[i];
            let thread: &Thread = &self.threads[index];
            proof {
                assert(self@.threads[index as int] == thread@);
                assert(thread@.valid(self@.global_libs));
                assert forall|k: int| 0 <= k < thread@.tables.stacks.len() implies (
                #[trigger] thread@.tables.stacks[k]).frame < thread@.tables.frames.len() by {
                    assert(thread@.tables.stack_ok(k));
                }
            }
            let process: &Process = &self.processes[thread.process().0];
            assert(self@.processes[thread@.process.0 as int] == process@);
            let item: Json = thread.to_json(
                &self.categories,
                process.start_time(),
                process.end_time(),
                process.name(),
                process.pid(),
            );
            proof {
                assert(item@ == cell(index));
                assert(items_view(items@.push(item)) =~= items_view(items@).push(item@));
                assert(order@.take(i + 1).map_values(cell) =~= order@.take(i as int).map_values(
                    cell,
                ).push(cell(index)));
            }
            items.push(item);
            i = i + 1;
        }
        assert(order@.take(i as int) =~= order@);
        list(items)
    }

    /// What the profile JSON says of the profile as a whole.
    fn meta_to_json(&self, schema_order: &Vec<usize>) -> (json: Json)
        requires
            forall|k: int|
                0 <= k < schema_order@.len() ==> (#[trigger] schema_order@[k])
                    < self@.marker_schemas.len(),
        ensures
            json@ == meta_json(self@, schema_order@),
    {
        let mut extensions: ObjectBuilder = ObjectBuilder::new();
        extensions.entry("baseURL", empty_list());
        extensions.entry("id", empty_list());
        extensions.entry("length", Json::UInt(0));
        extensions.entry("name", empty_list());
        assert(extensions@ =~= extensions_json()->Object_0);
        let mut sample_units: ObjectBuilder = ObjectBuilder::new();
        sample_units.entry("eventDelay", json_text("ms"));
        sample_units.entry("threadCPUDelta", json_text("µs"));
        sample_units.entry("time", json_text("ms"));
        assert(sample_units@ =~= sample_units_json()->Object_0);
        let mut object: ObjectBuilder = ObjectBuilder::new();
        object.entry("categories", self.categories_to_json());
        object.entry("debug", Json::Bool(false));
        object.entry("extensions", extensions.build());
        object.entry("interval", Json::Millis(self.interval.nanos()));
        object.entry("preprocessedProfileVersion", Json::UInt(44));
        object.entry("processType", Json::UInt(0));
        object.entry("product", json_text(self.product.as_str()));
        object.entry("sampleUnits", sample_units.build());
        object.entry("startTime", Json::Millis(self.reference_timestamp.nanos_since_unix_epoch));
        object.entry("symbolicated", Json::Bool(false));
        object.entry("pausedRanges", empty_list());
        object.entry("version", Json::UInt(24));
        object.entry("usesOnlyOneStackType", Json::Bool(true));
        object.entry("doesNotUseFrameImplementation", Json::Bool(true));
        object.entry("sourceCodeIsNotOnSearchfox", Json::Bool(true));
        object.entry("markerSchema", self.schemas_to_json(schema_order));
        assert(object@ =~= meta_json(self@, schema_order@)->Object_0);
        object.build()
    }

    /// The profile as JSON, in the processed profile format of the Firefox Profiler.
    pub fn to_json(&self) -> (json: Json)
        requires
            self.wf(),
        ensures
            exists|thread_order: Seq<usize>, schema_order: Seq<usize>|
                #![trigger profile_json(self@, thread_order, schema_order)]
                {
                    &&& is_thread_listing(self@, thread_order)
                    &&& is_schema_listing(self@, schema_order)
                    &&& json@ == profile_json(self@, thread_order, schema_order)
                },
    {
        let thread_order: Vec<usize> = self.list_threads();
        let schema_order: Vec<usize> = self.list_schemas();
        proof {
            assert forall|k: int| 0 <= k < thread_order@.len() implies (
            #[trigger] thread_order@[k]) < self@.threads.len() by {
                assert(thread_order@.contains(thread_order@[k]));
            }
            assert forall|k: int| 0 <= k < schema_order@.len() implies (
            #[trigger] schema_order@[k]) < self@.marker_schemas.len() by {
                assert(schema_order@.contains(schema_order@[k]));
            }
        }
        let mut object: ObjectBuilder = ObjectBuilder::new();
        object.entry("meta", self.meta_to_json(&schema_order));
        object.entry("libs", self.libs_to_json());
        object.entry("threads", self.threads_to_json(&thread_order));
        object.entry("pages", empty_list());
        object.entry("profilerOverhead", empty_list());
        object.entry("counters", empty_list());
        assert(object@ =~= profile_json(self@, thread_order@, schema_order@)->Object_0);
        object.build()
    }
}

/// The indexes of a list of `n` items.
fn index_range(n: usize) -> (indexes: Vec<usize>)
    ensures
        indexes@ == all_indexes(n as nat),
{
    let mut indexes: Vec<usize> = Vec::new();
    let mut i: usize = 0;
    while i < n
        invariant
            i <= n,
            indexes@ == all_indexes(i as nat),
        decreases n - i,
    {
        indexes.push(i);
        i = i + 1;
        assert(indexes@ =~= all_indexes(i as nat));
    }
    indexes
}

/// The indexes of a list are those below its length.
proof fn lemma_all_indexes(n: nat)
    requires
        n <= usize::MAX,
    ensures
        all_indexes(n).no_duplicates(),
        forall|i: usize| all_indexes(n).contains(i) <==> i < n,
{
    assert forall|i: usize| all_indexes(n).contains(i) <==> i < n by {
        if i < n {
            assert(all_indexes(n)[i as int] == i);
        }
    }
}

/// The indexes behind the handles.
fn thread_indexes(handles: &Vec<ThreadHandle>) -> (indexes: Vec<usize>)
    ensures
        indexes@ == handles@.map_values(|handle: ThreadHandle| handle.0),
{
    let mut indexes: Vec<usize> = Vec::new();
    let mut i: usize = 0;
    while i < handles.len()
        invariant
            i <= handles@.len(),
            indexes@.len() == i,
            forall|k: int| 0 <= k < i ==> #[trigger] indexes@[k] == handles@[k].0,
        decreases handles@.len() - i,
    {
        indexes.push(handles[i].0);
        i = i + 1;
    }
    indexes
}

/// An index is behind a handle if the handle is there.
proof fn lemma_thread_indexes(handles: Seq<ThreadHandle>, t: usize)
    ensures
        handles.map_values(|handle: ThreadHandle| handle.0).contains(t) <==> handles.contains(
            ThreadHandle(t),
        ),
{
    let indexes = handles.map_values(|handle: ThreadHandle| handle.0);
    if indexes.contains(t) {
        let k = choose|k: int| 0 <= k < indexes.len() && indexes[k] == t;
        assert(handles[k] == ThreadHandle(t));
    }
    if handles.contains(ThreadHandle(t)) {
        let k = choose|k: int| 0 <= k < handles.len() && handles[k] == ThreadHandle(t);
        assert(indexes[k] == t);
    }
}

/// The threads of a process are those that belong to it, each once.
pub proof fn lemma_threads_of(threads: Seq<ThreadView>, process: int)
    requires
        threads.len() <= usize::MAX,
    ensures
        threads_of(threads, process).no_duplicates(),
        forall|t: usize|
            #[trigger] threads_of(threads, process).contains(ThreadHandle(t)) <==> t < threads.len()
                && threads[t as int].process.0 == process,
        forall|k: int|
            0 <= k < threads_of(threads, process).len() ==> (#[trigger] threads_of(
                threads,
                process,
            )[k]).0 < threads.len(),
    decreases threads.len(),
{
    if threads.len() > 0 {
        let shorter = threads.drop_last();
        lemma_threads_of(shorter, process);
        let before = threads_of(shorter, process);
        let all = threads_of(threads, process);
        let last = ThreadHandle((threads.len() - 1) as usize);
        assert forall|t: usize| #[trigger] all.contains(ThreadHandle(t)) <==> t < threads.len()
            && threads[t as int].process.0 == process by {
            if all.contains(ThreadHandle(t)) {
                let k = choose|k: int| 0 <= k < all.len() && all[k] == ThreadHandle(t);
                if k < before.len() {
                    assert(before[k] == ThreadHandle(t));
                    assert(before.contains(ThreadHandle(t)));
                }
            }
            if t < shorter.len() && threads[t as int].process.0 == process {
                assert(shorter[t as int] == threads[t as int]);
                assert(before.contains(ThreadHandle(t)));
                let k = choose|k: int| 0 <= k < before.len() && before[k] == ThreadHandle(t);
                assert(all[k] == ThreadHandle(t));
            }
            if t == shorter.len() && threads[t as int].process.0 == process {
                assert(all[before.len() as int] == last);
            }
        }
        assert(!before.contains(last));
    }
}

fn category_cell(category: &Category) -> (json: Json)
    ensures
        json@ == category_json(category@),
{
    category.to_json()
}

/// `order` lists the threads as the profile JSON does.
pub open spec fn is_thread_listing(profile: ProfileView, order: Seq<usize>) -> bool {
    is_listing(
        order,
        profile.threads.len(),
        |a: usize, b: usize| profile.thread_listed_le(a, b),
    )
}

/// `order` lists the marker schemas as the profile JSON does.
pub open spec fn is_schema_listing(profile: ProfileView, order: Seq<usize>) -> bool {
    is_listing(
        order,
        profile.marker_schemas.len(),
        |a: usize, b: usize| profile.schema_listed_le(a, b),
    )
}

/// The categories in the profile JSON.
pub open spec fn categories_json(categories: Seq<CategoryView>) -> JsonView {
    column_json(categories, |category: CategoryView| category_json(category))
}

/// The libraries in the profile JSON.
pub open spec fn libs_json(libs: Seq<LibView>) -> JsonView {
    column_json(libs, |lib: LibView| lib_json(lib))
}

/// The marker schemas in the profile JSON.
pub open spec fn schemas_json(profile: ProfileView, order: Seq<usize>) -> JsonView {
    column_json(order, |i: usize| schema_json(profile.marker_schemas[i as int].1))
}

/// A thread in the profile JSON.
pub open spec fn listed_thread_json(profile: ProfileView, t: usize) -> JsonView {
    let thread = profile.threads[t as int];
    let process = profile.processes[thread.process.0 as int];
    thread_json(
        thread,
        profile.categories,
        process.start_time,
        process.end_time,
        process.name,
        process.pid,
    )
}

/// The threads in the profile JSON.
pub open spec fn threads_json(profile: ProfileView, order: Seq<usize>) -> JsonView {
    column_json(order, |t: usize| listed_thread_json(profile, t))
}

/// The browser extensions that were installed: none.
pub open spec fn extensions_json() -> JsonView {
    JsonView::Object(
        seq![
            ("baseURL"@, JsonView::List(Seq::empty())),
            ("id"@, JsonView::List(Seq::empty())),
            ("length"@, JsonView::UInt(0)),
            ("name"@, JsonView::List(Seq::empty())),
        ],
    )
}

/// The units of the columns of the sample table.
pub open spec fn sample_units_json() -> JsonView {
    JsonView::Object(
        seq![
            ("eventDelay"@, JsonView::Text("ms"@)),
            ("threadCPUDelta"@, JsonView::Text("µs"@)),
            ("time"@, JsonView::Text("ms"@)),
        ],
    )
}

/// What the profile JSON says of the profile as a whole.
pub open spec fn meta_json(profile: ProfileView, schema_order: Seq<usize>) -> JsonView {
    JsonView::Object(
        seq![
            ("categories"@, categories_json(profile.categories)),
            ("debug"@, JsonView::Bool(false)),
            ("extensions"@, extensions_json()),
            ("interval"@, JsonView::Millis(profile.interval@)),
            ("preprocessedProfileVersion"@, JsonView::UInt(44)),
            ("processType"@, JsonView::UInt(0)),
            ("product"@, JsonView::Text(profile.product)),
            ("sampleUnits"@, sample_units_json()),
            (
                "startTime"@,
                JsonView::Millis(profile.reference_timestamp.nanos_since_unix_epoch),
            ),
            ("symbolicated"@, JsonView::Bool(false)),
            ("pausedRanges"@, JsonView::List(Seq::empty())),
            ("version"@, JsonView::UInt(24)),
            ("usesOnlyOneStackType"@, JsonView::Bool(true)),
            ("doesNotUseFrameImplementation"@, JsonView::Bool(true)),
            ("sourceCodeIsNotOnSearchfox"@, JsonView::Bool(true)),
            ("markerSchema"@, schemas_json(profile, schema_order)),
        ],
    )
}

/// The profile JSON, with the threads and the marker schemas in the given order.
pub open spec fn profile_json(
    profile: ProfileView,
    thread_order: Seq<usize>,
    schema_order: Seq<usize>,
) -> JsonView {
    JsonView::Object(
        seq![
            ("meta"@, meta_json(profile, schema_order)),
            ("libs"@, libs_json(profile.global_libs)),
            ("threads"@, threads_json(profile, thread_order)),
            ("pages"@, JsonView::List(Seq::empty())),
            ("profilerOverhead"@, JsonView::List(Seq::empty())),
            ("counters"@, JsonView::List(Seq::empty())),
        ],
    )
}

/// A frame of a thread whose address one loaded library alone covers is located in that library:
/// in one of the kernel whatever process the thread belongs to, in one of a process if the thread
/// belongs to that process.
pub proof fn covering_library_locates_frame(
    profile: ProfileView,
    library: LibraryInfo,
    thread: ThreadHandle,
    frames: Seq<(Frame, CategoryPairHandle)>,
    k: int,
    address: u64,
)
    requires
        profile.valid(),
        thread.0 < profile.threads.len(),
        0 <= k < frames.len(),
        frames[k].0 == Frame::InstructionPointer(address),
        library.avma_range.start <= address < library.avma_range.end,
        ({
            ||| profile.kernel_libs.holds(library) && profile.kernel_libs.covered_by_none_but(
                library,
                address,
            )
            ||| profile.process_of(thread).libs.holds(library) && profile.process_of(
                thread,
            ).libs.covered_by_none_but(library, address) && profile.kernel_libs.leaves_free(address)
        }),
    ensures
        profile.calls(thread, frames)[k] == (
            CodeLocation::InLib(relative_address(address, library.base_avma), library.lib@),
            frames[k].1,
        ),
{
    let process = profile.threads[thread.0 as int].process.0 as int;
    assert(profile.processes[process].libs.valid());
    covering_library_locates_address(
        profile.kernel_libs,
        profile.process_of(thread).libs,
        library,
        address,
    );
}

/// The libraries of a process locate the frames of its own threads only: what the frames of the
/// threads of other processes say does not depend on them.
pub proof fn libraries_belong_to_their_process(
    profile: ProfileView,
    process: ProcessHandle,
    libs: LibsView,
    thread: ThreadHandle,
    frames: Seq<(Frame, CategoryPairHandle)>,
)
    requires
        profile.valid(),
        process.0 < profile.processes.len(),
        thread.0 < profile.threads.len(),
        profile.threads[thread.0 as int].process != process,
    ensures
        profile.with_process(
            process,
            (ProcessView { libs, ..profile.processes[process.0 as int] }),
        ).calls(thread, frames) == profile.calls(thread, frames),
{
    let changed = profile.with_process(
        process,
        ProcessView { libs, ..profile.processes[process.0 as int] },
    );
    assert(changed.process_of(thread) == profile.process_of(thread));
    assert(changed.calls(thread, frames) =~= profile.calls(thread, frames));
}

/// Handles stay good from one operation to the next.
pub proof fn continues_is_transitive(first: ProfileView, second: ProfileView, third: ProfileView)
    requires
        second.continues(first),
        third.continues(second),
    ensures
        third.continues(first),
{
    assert forall|c: int| 0 <= c < first.categories.len() implies {
        &&& (#[trigger] third.categories[c]).name == first.categories[c].name
        &&& third.categories[c].color == first.categories[c].color
        &&& extends(third.categories[c].subcategories, first.categories[c].subcategories)
    } by {
        assert(second.categories[c].name == first.categories[c].name);
    }
    assert forall|p: int| 0 <= p < first.processes.len() implies {
        &&& (#[trigger] third.processes[p]).pid == first.processes[p].pid
        &&& extends(third.processes[p].threads, first.processes[p].threads)
    } by {
        assert(second.processes[p].pid == first.processes[p].pid);
    }
    assert forall|t: int| 0 <= t < first.threads.len() implies {
        &&& (#[trigger] third.threads[t]).process == first.threads[t].process
        &&& third.threads[t].tid == first.threads[t].tid
        &&& third.threads[t].is_main == first.threads[t].is_main
        &&& third.threads[t].tables.continues(first.threads[t].tables)
        &&& extends(third.threads[t].markers, first.threads[t].markers)
    } by {
        assert(second.threads[t].process == first.threads[t].process);
    }
}

/// What has been recorded is never rewritten: later operations do not change what a stack of a
/// thread says.
pub proof fn recorded_stacks_stay(
    before: ProfileView,
    after: ProfileView,
    thread: ThreadHandle,
    stack: Option<usize>,
)
    requires
        before.valid(),
        after.continues(before),
        thread.0 < before.threads.len(),
        stack_exists(before.threads[thread.0 as int].tables, stack),
    ensures
        after.threads[thread.0 as int].tables.call_stack(after.global_libs, stack)
            == before.threads[thread.0 as int].tables.call_stack(before.global_libs, stack),
{
    assert(before.threads[thread.0 as int].valid(before.global_libs));
    assert(after.threads[thread.0 as int].process == before.threads[thread.0 as int].process);
    recorded_stacks_are_stable(
        after.threads[thread.0 as int].tables,
        after.global_libs,
        before.threads[thread.0 as int].tables,
        before.global_libs,
        stack,
    );
}

/// The profile JSON holds every thread of the profile exactly once, and every marker schema.
pub proof fn profile_json_is_complete(
    profile: ProfileView,
    thread_order: Seq<usize>,
    schema_order: Seq<usize>,
)
    requires
        is_thread_listing(profile, thread_order),
        is_schema_listing(profile, schema_order),
        profile.threads.len() <= usize::MAX,
        profile.marker_schemas.len() <= usize::MAX,
    ensures
        thread_order.to_multiset() == all_indexes(profile.threads.len()).to_multiset(),
        schema_order.to_multiset() == all_indexes(profile.marker_schemas.len()).to_multiset(),
        threads_json(profile, thread_order)->List_0.len() == profile.threads.len(),
        schemas_json(profile, schema_order)->List_0.len() == profile.marker_schemas.len(),
{
    listing_is_complete(
        thread_order,
        profile.threads.len(),
        |a: usize, b: usize| profile.thread_listed_le(a, b),
    );
    listing_is_complete(
        schema_order,
        profile.marker_schemas.len(),
        |a: usize, b: usize| profile.schema_listed_le(a, b),
    );
}

/// The profile decides what its JSON is: there is only one order of the threads and only one
/// order of the marker schemas.
pub proof fn profile_json_is_determined(
    profile: ProfileView,
    a_threads: Seq<usize>,
    a_schemas: Seq<usize>,
    b_threads: Seq<usize>,
    b_schemas: Seq<usize>,
)
    requires
        is_thread_listing(profile, a_threads),
        is_thread_listing(profile, b_threads),
        is_schema_listing(profile, a_schemas),
        is_schema_listing(profile, b_schemas),
    ensures
        a_threads == b_threads,
        a_schemas == b_schemas,
        profile_json(profile, a_threads, a_schemas) == profile_json(profile, b_threads, b_schemas),
{
    let thread_order = |a: usize, b: usize| profile.thread_listed_le(a, b);
    let schema_order = |a: usize, b: usize| profile.schema_listed_le(a, b);
    assert forall|a: usize, b: usize| #[trigger] thread_order(a, b) || #[trigger] thread_order(
        b,
        a,
    ) by {
        thread_le_total(profile.threads[a as int], profile.threads[b as int]);
    }
    assert forall|a: usize, b: usize, c: usize| #[trigger]
        thread_order(a, b) && #[trigger] thread_order(b, c) implies thread_order(a, c) by {
        lemma_listed_transitive(profile, a, b, c);
    }
    assert forall|a: usize, b: usize| #[trigger] schema_order(a, b) || #[trigger] schema_order(
        b,
        a,
    ) by {
        text_le_total(
            profile.marker_schemas[a as int].1.name,
            profile.marker_schemas[b as int].1.name,
        );
    }
    assert forall|a: usize, b: usize, c: usize| #[trigger]
        schema_order(a, b) && #[trigger] schema_order(b, c) implies schema_order(a, c) by {
        let x = profile.marker_schemas[a as int].1.name;
        let y = profile.marker_schemas[b as int].1.name;
        let z = profile.marker_schemas[c as int].1.name;
        text_le_transitive(x, y, z);
        if text_le(z, x) {
            text_le_transitive(z, x, y);
            text_le_transitive(y, z, x);
        }
    }
    listing_is_unique(a_threads, b_threads, profile.threads.len(), thread_order);
    listing_is_unique(a_schemas, b_schemas, profile.marker_schemas.len(), schema_order);
}

/// The order of the threads in the profile JSON is transitive.
proof fn lemma_listed_transitive(profile: ProfileView, a: usize, b: usize, c: usize)
    requires
        profile.thread_listed_le(a, b),
        profile.thread_listed_le(b, c),
    ensures
        profile.thread_listed_le(a, c),
{
    let x = profile.threads[a as int];
    let y = profile.threads[b as int];
    let z = profile.threads[c as int];
    if x.process == y.process && y.process == z.process {
        thread_le_transitive(x, y, z);
        if thread_le(z, x) {
            thread_le_transitive(z, x, y);
            thread_le_transitive(y, z, x);
        }
    }
}

/// A process that no thread belongs to has no threads.
proof fn lemma_threads_of_new_process(threads: Seq<ThreadView>, process: int)
    requires
        forall|t: int| 0 <= t < threads.len() ==> (#[trigger] threads[t]).process.0 < process,
    ensures
        threads_of(threads, process) == Seq::<ThreadHandle>::empty(),
    decreases threads.len(),
{
    if threads.len() > 0 {
        assert(threads[threads.len() - 1].process.0 < process);
        lemma_threads_of_new_process(threads.drop_last(), process);
    }
}

/// The threads of a process depend on nothing but which process each thread belongs to.
proof fn lemma_threads_of_same(a: Seq<ThreadView>, b: Seq<ThreadView>, process: int)
    requires
        a.len() == b.len(),
        forall|t: int| 0 <= t < a.len() ==> (#[trigger] a[t]).process == b[t].process,
    ensures
        threads_of(a, process) == threads_of(b, process),
    decreases a.len(),
{
    if a.len() > 0 {
        assert(a[a.len() - 1].process == b[a.len() - 1].process);
        lemma_threads_of_same(a.drop_last(), b.drop_last(), process);
    }
}

/// The frames of a thread are located one by one, in their order and with their categories,
/// against the libraries of the kernel and of the process that the thread belongs to, and the
/// strings of the profile.
pub proof fn frames_are_located_one_by_one(
    profile: ProfileView,
    thread: ThreadHandle,
    frames: Seq<(Frame, CategoryPairHandle)>,
)
    ensures
        profile.calls(thread, frames).len() == frames.len(),
        forall|k: int|
            #![trigger profile.calls(thread, frames)[k]]
            0 <= k < frames.len() ==> profile.calls(thread, frames)[k].1 == frames[k].1
                && profile.calls(thread, frames)[k].0 == frames[k].0.location(
                profile.kernel_libs,
                profile.processes[profile.threads[thread.0 as int].process.0 as int].libs,
                profile.strings,
            ),
{
}

/// A frame whose call lies in one loaded range of its process alone, and in none of the kernel, is
/// recorded in the library of that range, at the distance of the call from the range's base. The
/// call of an instruction pointer is at its address, that of a return address just before it, with
/// all 64 bits.
pub proof fn frame_is_recorded_in_the_library_of_its_process(
    profile: ProfileView,
    thread: ThreadHandle,
    frames: Seq<(Frame, CategoryPairHandle)>,
    k: int,
    call: u64,
    libs: LibsView,
    i: int,
)
    requires
        profile.valid(),
        thread.0 < profile.threads.len(),
        0 <= k < frames.len(),
        frames[k].0 == Frame::InstructionPointer(call) || (call < u64::MAX && frames[k].0
            == Frame::ReturnAddress((call + 1) as u64)),
        libs == profile.processes[profile.threads[thread.0 as int].process.0 as int].libs,
        0 <= i < libs.ranges.len(),
        libs.ranges[i].start <= call && call < libs.ranges[i].end,
        forall|j: int|
            0 <= j < libs.ranges.len() && j != i ==> !((#[trigger] libs.ranges[j]).start <= call
                && call < libs.ranges[j].end),
        forall|j: int|
            0 <= j < profile.kernel_libs.ranges.len() ==> !((
            #[trigger] profile.kernel_libs.ranges[j]).start <= call && call
                < profile.kernel_libs.ranges[j].end),
    ensures
        profile.calls(thread, frames)[k].1 == frames[k].1,
        profile.calls(thread, frames)[k].0 matches CodeLocation::InLib(relative, lib) && {
            &&& lib == libs.libs[libs.ranges[i].lib as int]
            &&& (libs.ranges[i].base + relative) % 0x1_0000_0000 == call % 0x1_0000_0000
            &&& libs.ranges[i].base <= call < libs.ranges[i].base + 0x1_0000_0000 ==> relative
                == call - libs.ranges[i].base
        },
{
    let p = profile.threads[thread.0 as int].process.0 as int;
    let kernel = profile.kernel_libs;
    let process = profile.processes[p].libs;
    assert(process.valid());
    frames_are_located_one_by_one(profile, thread, frames);
    assert(profile.calls(thread, frames)[k].1 == frames[k].1);
    addresses_resolve_into_ranges(kernel, call);
    addresses_resolve_into_ranges(process, call);
    kernel_libraries_come_first(kernel, process, call);
    instruction_pointer_is_where_its_address_is(call, kernel, process, profile.strings);
    if call < u64::MAX {
        return_address_is_behind_its_call((call + 1) as u64, kernel, process, profile.strings);
    }
    assert(libs.ranges[i].start <= call);
}

/// A frame whose call lies in one loaded range of the kernel alone is recorded in the library of
/// that range, at the distance of the call from the range's base, whatever process its thread
/// belongs to and whatever that process has loaded.
pub proof fn frame_is_recorded_in_the_library_of_the_kernel(
    profile: ProfileView,
    thread: ThreadHandle,
    frames: Seq<(Frame, CategoryPairHandle)>,
    k: int,
    call: u64,
    libs: LibsView,
    i: int,
)
    requires
        profile.valid(),
        thread.0 < profile.threads.len(),
        0 <= k < frames.len(),
        frames[k].0 == Frame::InstructionPointer(call) || (call < u64::MAX && frames[k].0
            == Frame::ReturnAddress((call + 1) as u64)),
        libs == profile.kernel_libs,
        0 <= i < libs.ranges.len(),
        libs.ranges[i].start <= call && call < libs.ranges[i].end,
        forall|j: int|
            0 <= j < libs.ranges.len() && j != i ==> !((#[trigger] libs.ranges[j]).start <= call
                && call < libs.ranges[j].end),
    ensures
        profile.calls(thread, frames)[k].1 == frames[k].1,
        profile.calls(thread, frames)[k].0 matches CodeLocation::InLib(relative, lib) && {
            &&& lib == libs.libs[libs.ranges[i].lib as int]
            &&& (libs.ranges[i].base + relative) % 0x1_0000_0000 == call % 0x1_0000_0000
            &&& libs.ranges[i].base <= call < libs.ranges[i].base + 0x1_0000_0000 ==> relative
                == call - libs.ranges[i].base
        },
{
    let p = profile.threads[thread.0 as int].process.0 as int;
    let kernel = profile.kernel_libs;
    let process = profile.processes[p].libs;
    assert(process.valid());
    frames_are_located_one_by_one(profile, thread, frames);
    assert(profile.calls(thread, frames)[k].1 == frames[k].1);
    addresses_resolve_into_ranges(kernel, call);
    addresses_resolve_into_ranges(process, call);
    kernel_libraries_come_first(kernel, process, call);
    instruction_pointer_is_where_its_address_is(call, kernel, process, profile.strings);
    if call < u64::MAX {
        return_address_is_behind_its_call((call + 1) as u64, kernel, process, profile.strings);
    }
    assert(libs.ranges[i].start <= call);
}

/// A changed process, a changed thread, one more sample, one more marker and one more schema each
/// change that alone.
pub proof fn changes_are_confined(
    profile: ProfileView,
    process: ProcessHandle,
    changed_process: ProcessView,
    thread: ThreadHandle,
    changed_thread: ThreadView,
    sample: SampleRow,
)
    requires
        process.0 < profile.processes.len(),
        thread.0 < profile.threads.len(),
    ensures
        ({
            let after = profile.with_process(process, changed_process);
            &&& after.processes.len() == profile.processes.len()
            &&& after.processes[process.0 as int] == changed_process
            &&& forall|p: int|
                0 <= p < profile.processes.len() && p != process.0 ==> after.processes[p]
                    == #[trigger] profile.processes[p]
            &&& after == (ProfileView { processes: after.processes, ..profile })
        }),
        ({
            let after = profile.with_thread(thread, changed_thread);
            &&& after.threads.len() == profile.threads.len()
            &&& after.threads[thread.0 as int] == changed_thread
            &&& forall|t: int|
                0 <= t < profile.threads.len() && t != thread.0 ==> after.threads[t]
                    == #[trigger] profile.threads[t]
            &&& after == (ProfileView { threads: after.threads, ..profile })
        }),
        ({
            let after = profile.with_sample(thread, sample);
            let before = profile.threads[thread.0 as int];
            &&& after.threads.len() == profile.threads.len()
            &&& after.threads[thread.0 as int].samples.len() == before.samples.len() + 1
            &&& after.threads[thread.0 as int].samples.last() == sample
            &&& forall|i: int|
                0 <= i < before.samples.len() ==> after.threads[thread.0 as int].samples[i]
                    == #[trigger] before.samples[i]
            &&& after.threads[thread.0 as int] == (ThreadView {
                samples: after.threads[thread.0 as int].samples,
                ..before
            })
            &&& forall|t: int|
                0 <= t < profile.threads.len() && t != thread.0 ==> after.threads[t]
                    == #[trigger] profile.threads[t]
            &&& after == (ProfileView { threads: after.threads, ..profile })
        }),
{
}

/// A recorded stack changes the tables of its thread and the libraries in use, and nothing else.
/// Before the first call of a stack there is no stack, and the tables are those of the thread.
pub proof fn recording_a_stack_is_confined(
    profile: ProfileView,
    thread: ThreadHandle,
    state: StackState,
)
    requires
        thread.0 < profile.threads.len(),
    ensures
        profile.stack_state(thread).tables == profile.threads[thread.0 as int].tables,
        profile.stack_state(thread).globals == profile.global_libs,
        profile.stack_state(thread).stack is None,
        ({
            let after = profile.with_stack_state(thread, state);
            &&& after.global_libs == state.globals
            &&& after.threads.len() == profile.threads.len()
            &&& after.threads[thread.0 as int] == (ThreadView {
                tables: state.tables,
                ..profile.threads[thread.0 as int]
            })
            &&& forall|t: int|
                0 <= t < profile.threads.len() && t != thread.0 ==> after.threads[t]
                    == #[trigger] profile.threads[t]
            &&& after == (ProfileView {
                global_libs: after.global_libs,
                threads: after.threads,
                ..profile
            })
        }),
{
}

/// A schema is added if no schema has its key, and the first one of a key stays.
pub proof fn first_schema_of_a_key_stays(
    profile: ProfileView,
    key: Seq<char>,
    schema: SchemaView,
)
    ensures
        ({
            let after = profile.with_schema(key, schema);
            let schemas = profile.marker_schemas;
            &&& after == (ProfileView { marker_schemas: after.marker_schemas, ..profile })
            &&& (exists|i: int| 0 <= i < schemas.len() && (#[trigger] schemas[i]).0 == key)
                ==> after.marker_schemas == schemas
            &&& (forall|i: int| 0 <= i < schemas.len() ==> (#[trigger] schemas[i]).0 != key)
                ==> after.marker_schemas.len() == schemas.len() + 1
                && after.marker_schemas.last() == (key, schema) && forall|i: int|
                0 <= i < schemas.len() ==> after.marker_schemas[i] == #[trigger] schemas[i]
        }),
        lacks_schema(profile.marker_schemas, key) <==> forall|i: int|
            0 <= i < profile.marker_schemas.len() ==> (#[trigger] profile.marker_schemas[i]).0
                != key,
{
}

/// A marker is recorded with its name, its timing and its data, behind all others of its thread.
pub proof fn marker_is_recorded_as_given(
    profile: ProfileView,
    thread: ThreadHandle,
    name: Seq<char>,
    timing: MarkerTiming,
    data: JsonView,
)
    requires
        profile.valid(),
        thread.0 < profile.threads.len(),
        interned(profile.threads[thread.0 as int].tables.strings, name).len() <= usize::MAX,
    ensures
        ({
            let after = profile.with_marker(thread, name, timing, data);
            let before = profile.threads[thread.0 as int];
            let changed = after.threads[thread.0 as int];
            let marker = changed.markers.last();
            &&& changed.markers.len() == before.markers.len() + 1
            &&& forall|i: int|
                0 <= i < before.markers.len() ==> changed.markers[i] == #[trigger] before.markers[i]
            &&& marker.timing == timing
            &&& marker.data == data
            &&& marker.name < changed.tables.strings.len()
            &&& changed.tables.strings[marker.name as int] == name
            &&& changed.tables.strings.len() <= before.tables.strings.len() + 1
            &&& forall|i: int|
                0 <= i < before.tables.strings.len() ==> changed.tables.strings[i]
                    == #[trigger] before.tables.strings[i]
            &&& changed == (ThreadView {
                markers: changed.markers,
                tables: TablesView { strings: changed.tables.strings, ..before.tables },
                ..before
            })
            &&& forall|t: int|
                0 <= t < profile.threads.len() && t != thread.0 ==> after.threads[t]
                    == #[trigger] profile.threads[t]
            &&& after == (ProfileView { threads: after.threads, ..profile })
        }),
{
    let before = profile.threads[thread.0 as int];
    assert(before.valid(profile.global_libs));
    interned_is_stable(before.tables.strings, name);
    let strings = interned(before.tables.strings, name);
    assert(strings.contains(name));
    assert(0 <= strings.index_of(name) < strings.len());
}

/// Of two threads in the profile JSON, the earlier one belongs to the process that started first,
/// or of those that started together to the one with the lower pid, or to the one that was added
/// first. Of two of one process, it is the main thread, or else it started first, or has the name
/// that comes first, or the lower tid, or was added first.
pub proof fn threads_are_listed_by_start_time(
    profile: ProfileView,
    order: Seq<usize>,
    i: int,
    j: int,
)
    requires
        is_thread_listing(profile, order),
        0 <= i < j < order.len(),
    ensures
        ({
            let a = profile.threads[order[i] as int];
            let b = profile.threads[order[j] as int];
            let p = profile.processes[a.process.0 as int];
            let q = profile.processes[b.process.0 as int];
            &&& a.process.0 != b.process.0 ==> {
                ||| p.start_time.nanos < q.start_time.nanos
                ||| p.start_time.nanos == q.start_time.nanos && p.pid < q.pid
                ||| p.start_time.nanos == q.start_time.nanos && p.pid == q.pid && a.process.0
                    < b.process.0
            }
            &&& a.process.0 == b.process.0 ==> {
                ||| a.is_main && !b.is_main
                ||| a.is_main == b.is_main && {
                    ||| a.start_time.nanos < b.start_time.nanos
                    ||| a.start_time.nanos == b.start_time.nanos && {
                        ||| a.name != b.name && optional_text_le(a.name, b.name)
                        ||| a.name == b.name && a.tid < b.tid
                        ||| a.name == b.name && a.tid == b.tid && order[i] < order[j]
                    }
                }
            }
        }),
{
    assert(profile.thread_listed_le(order[i], order[j]));
    assert(order[i] != order[j]);
    let a = profile.threads[order[i] as int];
    let b = profile.threads[order[j] as int];
    if a.name != b.name && optional_text_le(a.name, b.name) && optional_text_le(b.name, a.name) {
        optional_text_le_antisymmetric(a.name, b.name);
    }
}

/// Of two marker schemas in the profile JSON, the earlier one has the name that comes first, or
/// the same name and was added first.
pub proof fn schemas_are_listed_by_name(
    profile: ProfileView,
    order: Seq<usize>,
    i: int,
    j: int,
)
    requires
        is_schema_listing(profile, order),
        0 <= i < j < order.len(),
    ensures
        ({
            let a = profile.marker_schemas[order[i] as int].1.name;
            let b = profile.marker_schemas[order[j] as int].1.name;
            &&& text_le(a, b)
            &&& a == b ==> order[i] < order[j]
        }),
{
    assert(profile.schema_listed_le(order[i], order[j]));
    assert(order[i] != order[j]);
}

/// The profile JSON lists each thread and each marker schema, none of them twice.
pub proof fn every_thread_is_listed_once(profile: ProfileView, order: Seq<usize>, t: usize)
    requires
        is_thread_listing(profile, order),
        profile.threads.len() <= usize::MAX,
    ensures
        order.len() == profile.threads.len(),
        t < profile.threads.len() <==> exists|i: int| 0 <= i < order.len() && order[i] == t,
        forall|i: int, j: int|
            0 <= i < j < order.len() ==> #[trigger] order[i] != #[trigger] order[j],
{
    listing_is_complete(
        order,
        profile.threads.len(),
        |a: usize, b: usize| profile.thread_listed_le(a, b),
    );
    assert(order.contains(t) <==> t < profile.threads.len());
}

/// A frame whose call lies in no loaded range is recorded with the address of the call, all 64
/// bits of it, and a label with its string.
pub proof fn other_frames_are_recorded_as_given(
    profile: ProfileView,
    thread: ThreadHandle,
    frames: Seq<(Frame, CategoryPairHandle)>,
    k: int,
    call: u64,
    label: usize,
)
    requires
        profile.valid(),
        thread.0 < profile.threads.len(),
        0 <= k < frames.len(),
    ensures
        frames[k].0 == Frame::Label(StringHandle(label)) && label < profile.strings.len()
            ==> profile.calls(thread, frames)[k] == (
            CodeLocation::Label(profile.strings[label as int]),
            frames[k].1,
        ),
        (frames[k].0 == Frame::InstructionPointer(call) || (call < u64::MAX && frames[k].0
            == Frame::ReturnAddress((call + 1) as u64))) && (forall|j: int|
            0 <= j < profile.kernel_libs.ranges.len() ==> !((
            #[trigger] profile.kernel_libs.ranges[j]).start <= call && call
                < profile.kernel_libs.ranges[j].end)) && (forall|j: int|
            0 <= j < profile.process_of(thread).libs.ranges.len() ==> !((
            #[trigger] profile.process_of(thread).libs.ranges[j]).start <= call && call
                < profile.process_of(thread).libs.ranges[j].end)) ==> profile.calls(
            thread,
            frames,
        )[k] == (CodeLocation::Unknown(call), frames[k].1),
{
    let p = profile.threads[thread.0 as int].process.0 as int;
    let kernel = profile.kernel_libs;
    let process = profile.processes[p].libs;
    assert(process.valid());
    frames_are_located_one_by_one(profile, thread, frames);
    assert(profile.calls(thread, frames)[k].1 == frames[k].1);
    label_says_its_string(label, call, kernel, process, profile.strings);
    addresses_resolve_into_ranges(kernel, call);
    addresses_resolve_into_ranges(process, call);
    kernel_libraries_come_first(kernel, process, call);
    instruction_pointer_is_where_its_address_is(call, kernel, process, profile.strings);
    if call < u64::MAX {
        return_address_is_behind_its_call((call + 1) as u64, kernel, process, profile.strings);
    }
}

/// The profile JSON holds what the profile holds: of each listed thread what the thread and its
/// process say, the libraries in use, the categories, the listed schemas, and exactly the interval
/// and the reference timestamp.
pub proof fn profile_json_holds_the_profile(
    profile: ProfileView,
    thread_order: Seq<usize>,
    schema_order: Seq<usize>,
)
    ensures
        profile_json(profile, thread_order, schema_order) matches JsonView::Object(entries) && {
            &&& entries.len() == 6
            &&& entries[0] == ("meta"@, meta_json(profile, schema_order))
            &&& entries[1].0 == "libs"@
            &&& entries[1].1 matches JsonView::List(libs) && {
                &&& libs.len() == profile.global_libs.len()
                &&& forall|i: int|
                    0 <= i < libs.len() ==> #[trigger] libs[i] == lib_json(profile.global_libs[i])
            }
            &&& entries[2].0 == "threads"@
            &&& entries[2].1 matches JsonView::List(threads) && {
                &&& threads.len() == thread_order.len()
                &&& forall|i: int|
                    0 <= i < threads.len() ==> {
                        let thread = profile.threads[thread_order[i] as int];
                        let process = profile.processes[thread.process.0 as int];
                        #[trigger] threads[i] == thread_json(
                            thread,
                            profile.categories,
                            process.start_time,
                            process.end_time,
                            process.name,
                            process.pid,
                        )
                    }
            }
            &&& entries[3] == ("pages"@, JsonView::List(Seq::empty()))
            &&& entries[4] == ("profilerOverhead"@, JsonView::List(Seq::empty()))
            &&& entries[5] == ("counters"@, JsonView::List(Seq::empty()))
        },
{
}

/// What the profile JSON says of the profile as a whole.
pub proof fn meta_json_holds_the_settings(profile: ProfileView, schema_order: Seq<usize>)
    ensures
        meta_json(profile, schema_order) matches JsonView::Object(entries) && {
            &&& entries.len() == 16
            &&& entries[0].0 == "categories"@
            &&& entries[0].1 matches JsonView::List(categories) && {
                &&& categories.len() == profile.categories.len()
                &&& forall|i: int|
                    0 <= i < categories.len() ==> #[trigger] categories[i] == category_json(
                        profile.categories[i],
                    )
            }
            &&& entries[1] == ("debug"@, JsonView::Bool(false))
            &&& entries[2].0 == "extensions"@
            &&& entries[2].1 matches JsonView::Object(extensions) && {
                &&& extensions.len() == 4
                &&& extensions[0] == ("baseURL"@, JsonView::List(Seq::empty()))
                &&& extensions[1] == ("id"@, JsonView::List(Seq::empty()))
                &&& extensions[2] == ("length"@, JsonView::UInt(0))
                &&& extensions[3] == ("name"@, JsonView::List(Seq::empty()))
            }
            &&& entries[3] == ("interval"@, JsonView::Millis(profile.interval@))
            &&& entries[4] == ("preprocessedProfileVersion"@, JsonView::UInt(44))
            &&& entries[5] == ("processType"@, JsonView::UInt(0))
            &&& entries[6] == ("product"@, JsonView::Text(profile.product))
            &&& entries[7].0 == "sampleUnits"@
            &&& entries[7].1 matches JsonView::Object(units) && {
                &&& units.len() == 3
                &&& units[0] == ("eventDelay"@, JsonView::Text("ms"@))
                &&& units[1] == ("threadCPUDelta"@, JsonView::Text("µs"@))
                &&& units[2] == ("time"@, JsonView::Text("ms"@))
            }
            &&& entries[8].0 == "startTime"@
            &&& entries[8].1 == JsonView::Millis(profile.reference_timestamp.nanos_since_unix_epoch)
            &&& entries[9] == ("symbolicated"@, JsonView::Bool(false))
            &&& entries[10] == ("pausedRanges"@, JsonView::List(Seq::empty()))
            &&& entries[11] == ("version"@, JsonView::UInt(24))
            &&& entries[12] == ("usesOnlyOneStackType"@, JsonView::Bool(true))
            &&& entries[13] == ("doesNotUseFrameImplementation"@, JsonView::Bool(true))
            &&& entries[14] == ("sourceCodeIsNotOnSearchfox"@, JsonView::Bool(true))
            &&& entries[15].0 == "markerSchema"@
            &&& entries[15].1 matches JsonView::List(schemas) && {
                &&& schemas.len() == schema_order.len()
                &&& forall|i: int|
                    0 <= i < schemas.len() ==> #[trigger] schemas[i] == schema_json(
                        profile.marker_schemas[schema_order[i] as int].1,
                    )
            }
        },
{
}

/// The threads of a process are the handles of those threads that were added to it, in the order
/// in which they were added.
pub proof fn process_has_the_threads_that_were_added_to_it(
    threads: Seq<ThreadView>,
    process: int,
    t: usize,
)
    requires
        threads.len() <= usize::MAX,
    ensures
        threads_of(threads, process).contains(ThreadHandle(t)) <==> t < threads.len()
            && threads[t as int].process.0 == process,
        forall|i: int, j: int|
            0 <= i < j < threads_of(threads, process).len() ==> (#[trigger] threads_of(
                threads,
                process,
            )[i]).0 < (#[trigger] threads_of(threads, process)[j]).0,
    decreases threads.len(),
{
    if threads.len() > 0 {
        let before = threads_of(threads.drop_last(), process);
        let all = threads_of(threads, process);
        process_has_the_threads_that_were_added_to_it(threads.drop_last(), process, t);
        lemma_threads_of(threads.drop_last(), process);
        assert forall|i: int, j: int| 0 <= i < j < all.len() implies (#[trigger] all[i]).0 < (
        #[trigger] all[j]).0 by {
            assert(all[i] == before[i]);
            if j < before.len() {
                assert(all[j] == before[j]);
            }
        }
    }
    lemma_threads_of(threads, process);
}

/// In the profile JSON, the times of a listed thread are the times that were recorded, to the
/// nanosecond: those of its samples, of its markers, of the thread and of its process.
pub proof fn recorded_times_are_in_the_profile_json(
    profile: ProfileView,
    thread_order: Seq<usize>,
    schema_order: Seq<usize>,
    i: int,
)
    requires
        0 <= i < thread_order.len(),
    ensures
        ({
            let thread = profile.threads[thread_order[i] as int];
            let process = profile.processes[thread.process.0 as int];
            let json = profile_json(
                profile,
                thread_order,
                schema_order,
            )->Object_0[2].1->List_0[i]->Object_0;
            let samples = json[14].1->Object_0;
            let markers = json[2].1->Object_0;
            &&& json[10] == ("processStartupTime"@, JsonView::Millis(process.start_time.nanos))
            &&& json[9].0 == "processShutdownTime"@
            &&& process.end_time matches Some(end) ==> json[9].1 == JsonView::Millis(end.nanos)
            &&& json[12] == ("registerTime"@, JsonView::Millis(thread.start_time.nanos))
            &&& json[18].0 == "unregisterTime"@
            &&& thread.end_time matches Some(end) ==> json[18].1 == JsonView::Millis(end.nanos)
            &&& json[14].0 == "samples"@
            &&& samples[2].0 == "time"@
            &&& samples[2].1->List_0.len() == thread.samples.len()
            &&& forall|k: int|
                0 <= k < thread.samples.len() ==> (#[trigger] samples[2].1->List_0[k])
                    == JsonView::Millis(thread.samples[k].timestamp.nanos)
            &&& json[2].0 == "markers"@
            &&& markers[6].0 == "startTime"@
            &&& markers[3].0 == "endTime"@
            &&& markers[6].1->List_0.len() == thread.markers.len()
            &&& markers[3].1->List_0.len() == thread.markers.len()
            &&& forall|k: int|
                0 <= k < thread.markers.len() ==> {
                    let start_cell = markers[6].1->List_0[k];
                    let end_cell = markers[3].1->List_0[k];
                    let timing = (#[trigger] thread.markers[k]).timing;
                    &&& timing matches MarkerTiming::Instant(start) ==> start_cell
                        == JsonView::Millis(start.nanos) && end_cell == JsonView::Null
                    &&& timing matches MarkerTiming::Interval(start, end) ==> start_cell
                        == JsonView::Millis(start.nanos) && end_cell == JsonView::Millis(end.nanos)
                    &&& timing matches MarkerTiming::IntervalStart(start) ==> start_cell
                        == JsonView::Millis(start.nanos) && end_cell == JsonView::Null
                    &&& timing matches MarkerTiming::IntervalEnd(end) ==> start_cell
                        == JsonView::Null && end_cell == JsonView::Millis(end.nanos)
                }
        }),
{
    let thread = profile.threads[thread_order[i] as int];
    let process = profile.processes[thread.process.0 as int];
    profile_json_holds_the_profile(profile, thread_order, schema_order);
    thread_json_holds_the_thread(
        thread,
        profile.categories,
        process.start_time,
        process.end_time,
        process.name,
        process.pid,
    );
    sample_columns_hold_the_samples(thread.samples);
    marker_columns_hold_the_markers(thread.markers);
}

} // verus!
