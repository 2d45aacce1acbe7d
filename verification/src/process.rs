//! The processes of a profile.

use crate::intern::{extends, index_is_unique, interned, interned_is_stable};
use crate::library::{
    covering_library_is_found, free_address_is_unknown, relative_address, GlobalLibTable, LibView,
    LibraryInfo, LibsView, LibsWithRanges,
};
use crate::sort::Ranked;
use crate::stack_tables::{index_in, CodeLocation, InternalFrameLocation};
use crate::timestamp::Timestamp;
use vstd::prelude::*;

verus! {

/// A handle for a process of a profile.
#[derive(Debug, Clone, Copy, PartialEq, Eq, PartialOrd, Ord, Hash, Structural)]
pub struct ProcessHandle(pub usize);

/// A handle for a thread of a profile.
#[derive(Debug, Clone, Copy, PartialEq, Eq, PartialOrd, Ord, Hash, Structural)]
pub struct ThreadHandle(pub usize);

/// Where an address is: libraries of the kernel are considered first, then those of the process.
pub open spec fn resolve_address(
    kernel: LibsView,
    process: LibsView,
    address: u64,
) -> CodeLocation {
    match kernel.resolve(address) {
        Some((relative, lib)) => CodeLocation::InLib(relative, lib),
        None => match process.resolve(address) {
            Some((relative, lib)) => CodeLocation::InLib(relative, lib),
            None => CodeLocation::Unknown(address),
        },
    }
}

/// An address that one loaded library alone covers is in that library: one of the kernel wherever
/// the process has its libraries, one of the process where the kernel has none.
pub proof fn covering_library_locates_address(
    kernel: LibsView,
    process: LibsView,
    library: LibraryInfo,
    address: u64,
)
    requires
        kernel.valid(),
        process.valid(),
        library.avma_range.start <= address < library.avma_range.end,
    ensures
        kernel.holds(library) && kernel.covered_by_none_but(library, address) ==> resolve_address(
            kernel,
            process,
            address,
        ) == CodeLocation::InLib(relative_address(address, library.base_avma), library.lib@),
        kernel.leaves_free(address) && process.holds(library) && process.covered_by_none_but(
            library,
            address,
        ) ==> resolve_address(kernel, process, address) == CodeLocation::InLib(
            relative_address(address, library.base_avma),
            library.lib@,
        ),
{
    if kernel.holds(library) && kernel.covered_by_none_but(library, address) {
        covering_library_is_found(kernel, library, address);
    }
    if kernel.leaves_free(address) && process.holds(library) && process.covered_by_none_but(
        library,
        address,
    ) {
        free_address_is_unknown(kernel, address);
        covering_library_is_found(process, library, address);
    }
}

/// A process.
#[derive(Debug)]
pub struct Process {
    pid: u32,
    name: String,
    threads: Vec<ThreadHandle>,
    start_time: Timestamp,
    end_time: Option<Timestamp>,
    libs: LibsWithRanges,
}

/// What a [`Process`] says.
#[verifier::ext_equal]
pub struct ProcessView {
    pub pid: u32,
    pub name: Seq<char>,
    pub threads: Seq<ThreadHandle>,
    pub start_time: Timestamp,
    pub end_time: Option<Timestamp>,
    pub libs: LibsView,
}

impl View for Process {
    type V = ProcessView;

    closed spec fn view(&self) -> ProcessView {
        ProcessView {
            pid: self.pid,
            name: self.name@,
            threads: self.threads@,
            start_time: self.start_time,
            end_time: self.end_time,
            libs: self.libs@,
        }
    }
}

/// The order of processes in the profile JSON: by start time, then by pid.
pub open spec fn process_le(a: ProcessView, b: ProcessView) -> bool {
    if a.start_time.nanos != b.start_time.nanos {
        a.start_time.nanos < b.start_time.nanos
    } else {
        a.pid <= b.pid
    }
}

impl Ranked for Process {
    open spec fn ranked_le(self, other: Self) -> bool {
        process_le(self@, other@)
    }

    proof fn ranked_total(a: Self, b: Self) {
    }

    proof fn ranked_transitive(a: Self, b: Self, c: Self) {
    }

    fn is_ranked_le(&self, other: &Self) -> (r: bool) {
        if self.start_time.nanos != other.start_time.nanos {
            self.start_time.nanos < other.start_time.nanos
        } else {
            self.pid <= other.pid
        }
    }
}

impl Process {
    /// The libraries of the process are in order.
    pub closed spec fn wf(self, globals: Seq<LibView>) -> bool {
        self.libs.wf(globals)
    }

    /// The facts on the libraries that others may use.
    pub proof fn lemma_wf(self, globals: Seq<LibView>)
        requires
            self.wf(globals),
        ensures
            self@.libs.valid(),
    {
        self.libs.lemma_wf(globals);
    }

    /// Adding to the libraries of the profile does not harm.
    pub proof fn lemma_extended(self, globals: Seq<LibView>, longer: Seq<LibView>)
        requires
            self.wf(globals),
            extends(longer, globals),
        ensures
            self.wf(longer),
    {
        self.libs.lemma_extended(globals, longer);
    }

    /// A process without threads and libraries.
    pub fn new(name: &str, pid: u32, start_time: Timestamp) -> (process: Self)
        ensures
            forall|globals: Seq<LibView>| #[trigger] process.wf(globals),
            process@ == (ProcessView {
                pid,
                name: name@,
                threads: Seq::empty(),
                start_time,
                end_time: None,
                libs: LibsView::empty(),
            }),
    {
        Process {
            pid,
            name: name.to_string(),
            threads: Vec::new(),
            start_time,
            end_time: None,
            libs: LibsWithRanges::new(),
        }
    }

    pub fn pid(&self) -> (pid: u32)
        ensures
            pid == self@.pid,
    {
        self.pid
    }

    pub fn name(&self) -> (name: &str)
        ensures
            name@ == self@.name,
    {
        self.name.as_str()
    }

    pub fn threads(&self) -> (threads: &Vec<ThreadHandle>)
        ensures
            threads@ == self@.threads,
    {
        &self.threads
    }

    pub fn start_time(&self) -> (start_time: Timestamp)
        ensures
            start_time == self@.start_time,
    {
        self.start_time
    }

    pub fn end_time(&self) -> (end_time: Option<Timestamp>)
        ensures
            end_time == self@.end_time,
    {
        self.end_time
    }

    pub fn set_start_time(&mut self, start_time: Timestamp)
        ensures
            final(self)@ == (ProcessView { start_time, ..old(self)@ }),
            forall|globals: Seq<LibView>| #[trigger]
                old(self).wf(globals) ==> final(self).wf(globals),
    {
        self.start_time = start_time;
    }

    pub fn set_end_time(&mut self, end_time: Timestamp)
        ensures
            final(self)@ == (ProcessView { end_time: Some(end_time), ..old(self)@ }),
            forall|globals: Seq<LibView>| #[trigger]
                old(self).wf(globals) ==> final(self).wf(globals),
    {
        self.end_time = Some(end_time);
    }

    pub fn set_name(&mut self, name: &str)
        ensures
            final(self)@ == (ProcessView { name: name@, ..old(self)@ }),
            forall|globals: Seq<LibView>| #[trigger]
                old(self).wf(globals) ==> final(self).wf(globals),
    {
        self.name = name.to_string();
    }

    pub fn add_thread(&mut self, thread: ThreadHandle)
        ensures
            final(self)@ == (ProcessView {
                threads: old(self)@.threads.push(thread),
                ..old(self)@
            }),
            forall|globals: Seq<LibView>| #[trigger]
                old(self).wf(globals) ==> final(self).wf(globals),
    {
        self.threads.push(thread);
    }

    /// Map a library into the process.
    pub fn add_lib(&mut self, library: LibraryInfo)
        ensures
            final(self)@ == (ProcessView { libs: old(self)@.libs.added(library), ..old(self)@ }),
            forall|globals: Seq<LibView>| #[trigger]
                old(self).wf(globals) ==> final(self).wf(globals),
    {
        self.libs.add_lib(library);
    }

    /// Unmap the library at the given base address.
    pub fn unload_lib(&mut self, base_address: u64)
        ensures
            final(self)@ == (ProcessView {
                libs: old(self)@.libs.unloaded(base_address),
                ..old(self)@
            }),
            forall|globals: Seq<LibView>| #[trigger]
                old(self).wf(globals) ==> final(self).wf(globals),
    {
        self.libs.unload_lib(base_address);
    }

    /// Where an address is. A library that it is in becomes one of the libraries of the profile.
    pub fn convert_address(
        &mut self,
        global_libs: &mut GlobalLibTable,
        kernel_libs: &mut LibsWithRanges,
        address: u64,
    ) -> (location: InternalFrameLocation)
        requires
            old(self).wf(old(global_libs)@),
            old(kernel_libs).wf(old(global_libs)@),
            old(global_libs)@.no_duplicates(),
        ensures
            final(self)@ == old(self)@,
            final(kernel_libs)@ == old(kernel_libs)@,
            final(self).wf(final(global_libs)@),
            final(kernel_libs).wf(final(global_libs)@),
            final(global_libs)@.no_duplicates(),
            match resolve_address(old(kernel_libs)@, old(self)@.libs, address) {
                CodeLocation::InLib(relative, lib) => {
                    &&& final(global_libs)@ == interned(old(global_libs)@, lib)
                    &&& location == InternalFrameLocation::AddressInLib(
                        relative,
                        index_in(final(global_libs)@, lib),
                    )
                    &&& final(global_libs)@.contains(lib)
                },
                _ => {
                    &&& final(global_libs)@ == old(global_libs)@
                    &&& location == InternalFrameLocation::UnknownAddress(address)
                },
            },
    {
        let ghost before = global_libs@;
        if let Some((relative, lib)) = kernel_libs.convert_address(global_libs, address) {
            proof {
                index_is_unique(global_libs@, global_libs@[lib as int], lib as int);
                interned_is_stable(before, global_libs@[lib as int]);
                self.libs.lemma_extended(before, global_libs@);
            }
            return InternalFrameLocation::AddressInLib(relative, lib);
        }
        if let Some((relative, lib)) = self.libs.convert_address(global_libs, address) {
            proof {
                index_is_unique(global_libs@, global_libs@[lib as int], lib as int);
                interned_is_stable(before, global_libs@[lib as int]);
                kernel_libs.lemma_extended(before, global_libs@);
            }
            return InternalFrameLocation::AddressInLib(relative, lib);
        }
        InternalFrameLocation::UnknownAddress(address)
    }
}

/// Where an address is: in a library of the kernel if it lies in a range of one, else in one of
/// the process if it lies in a range of one, else at the address itself.
pub proof fn kernel_libraries_come_first(kernel: LibsView, process: LibsView, address: u64)
    ensures
        kernel.resolve(address) matches Some((relative, lib)) ==> resolve_address(
            kernel,
            process,
            address,
        ) == CodeLocation::InLib(relative, lib),
        kernel.resolve(address) is None ==> {
            &&& process.resolve(address) matches Some((relative, lib)) ==> resolve_address(
                kernel,
                process,
                address,
            ) == CodeLocation::InLib(relative, lib)
            &&& process.resolve(address) is None ==> resolve_address(kernel, process, address)
                == CodeLocation::Unknown(address)
        },
{
}

/// A process comes before another in the profile JSON if it started first, or together with it
/// and its pid is not greater.
pub proof fn start_time_then_pid_orders_processes(a: ProcessView, b: ProcessView)
    ensures
        a.start_time.nanos < b.start_time.nanos ==> process_le(a, b) && !process_le(b, a),
        a.start_time.nanos == b.start_time.nanos ==> (process_le(a, b) <==> a.pid <= b.pid),
{
}

} // verus!
