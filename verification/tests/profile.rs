use std::sync::Arc;

use samply::category::{CategoryColor, CategoryHandle, CategoryPairHandle, SubcategoryIndex};
use samply::frame::Frame;
use samply::json::Json;
use samply::library::{Lib, LibraryInfo};
use samply::marker::{MarkerSchema, MarkerTiming, ProfilerMarker};
use samply::profile::{Profile, SamplingInterval};
use samply::symbol_table::{Symbol, SymbolTable};
use samply::timestamp::{CpuDelta, ReferenceTimestamp, Timestamp};

/// The text of a JSON value, with times in nanoseconds.
fn render(json: &Json) -> String {
    match json {
        Json::Null => "null".to_string(),
        Json::Bool(b) => format!("{b}"),
        Json::Int(n) => format!("{n}"),
        Json::UInt(n) => format!("{n}"),
        Json::Millis(nanos) => format!("{nanos}ns"),
        Json::Float(bits) => format!("{}", f64::from_bits(*bits)),
        Json::Text(s) => format!("{s:?}"),
        Json::List(items) => {
            let items: Vec<String> = items.iter().map(render).collect();
            format!("[{}]", items.join(","))
        }
        Json::Object(entries) => {
            let entries: Vec<String> = entries
                .iter()
                .map(|(key, value)| format!("{key:?}:{}", render(value)))
                .collect();
            format!("{{{}}}", entries.join(","))
        }
    }
}

/// An entry of an object.
fn entry<'a>(json: &'a Json, key: &str) -> &'a Json {
    match json {
        Json::Object(entries) => &entries.iter().find(|(k, _)| k == key).unwrap().1,
        _ => panic!("not an object"),
    }
}

/// The items of a list.
fn items(json: &Json) -> &[Json] {
    match json {
        Json::List(items) => items,
        _ => panic!("not a list"),
    }
}

fn shown(json: &Json, keys: &[&str]) -> String {
    let mut json = json;
    for key in keys {
        json = entry(json, key);
    }
    render(json)
}

fn thread_json(profile: &Profile, index: usize) -> String {
    render(&items(entry(&profile.to_json(), "threads"))[index])
}

fn time(nanos: u64) -> Timestamp {
    Timestamp::from_nanos_since_reference(nanos)
}

fn new_profile() -> Profile {
    Profile::new(
        "My app",
        ReferenceTimestamp::from_nanos_since_unix_epoch(7_000_000),
        SamplingInterval::from_millis(1),
    )
}

fn other() -> CategoryPairHandle {
    CategoryHandle::other().into()
}

fn lib(name: &str, symbols: Vec<Symbol>) -> Lib {
    Lib {
        name: name.to_string(),
        debug_name: format!("{name}.debug"),
        path: format!("/lib/{name}"),
        debug_path: format!("/lib/debug/{name}"),
        debug_id: "0123456789ABCDEF0123456789ABCDEF0".to_string(),
        code_id: Some("abcd".to_string()),
        arch: None,
        symbol_table: if symbols.is_empty() {
            None
        } else {
            Some(Arc::new(SymbolTable::new(symbols)))
        },
    }
}

fn library(name: &str, start: u64, end: u64, base: u64) -> LibraryInfo {
    LibraryInfo {
        base_avma: base,
        avma_range: start..end,
        lib: lib(name, Vec::new()),
    }
}

#[test]
fn intervals_are_converted() {
    assert_eq!(SamplingInterval::from_millis(3).nanos(), 3_000_000);
    assert_eq!(SamplingInterval::from_nanos(17).nanos(), 17);
    assert_eq!(
        SamplingInterval::from_seconds_and_nanos(2, 5).nanos(),
        2_000_000_005
    );
    assert_eq!(
        SamplingInterval::from_seconds_and_nanos(18_446_744_073, 709_551_616).nanos(),
        0
    );
}

#[test]
fn an_empty_profile_has_all_properties() {
    let profile = new_profile();
    assert_eq!(
        render(&profile.to_json()),
        concat_lines(&[
            "{\"meta\":{\"categories\":[{\"name\":\"Other\",\"color\":\"grey\",\"subcategories\":[\"Other\"]}],",
            "\"debug\":false,\"extensions\":{\"baseURL\":[],\"id\":[],\"length\":0,\"name\":[]},",
            "\"interval\":1000000ns,\"preprocessedProfileVersion\":44,\"processType\":0,",
            "\"product\":\"My app\",\"sampleUnits\":{\"eventDelay\":\"ms\",\"threadCPUDelta\":\"\u{b5}s\",\"time\":\"ms\"},",
            "\"startTime\":7000000ns,\"symbolicated\":false,\"pausedRanges\":[],\"version\":24,",
            "\"usesOnlyOneStackType\":true,\"doesNotUseFrameImplementation\":true,",
            "\"sourceCodeIsNotOnSearchfox\":true,\"markerSchema\":[]},",
            "\"libs\":[],\"threads\":[],\"pages\":[],\"profilerOverhead\":[],\"counters\":[]}",
        ])
    );
}

fn concat_lines(lines: &[&str]) -> String {
    lines.concat()
}

#[test]
fn labels_make_up_a_stack() {
    let mut profile = new_profile();
    let process = profile.add_process("App process", 54132, time(0));
    let thread = profile.add_thread(process, 54132000, time(0), true);
    profile.set_thread_name(thread, "Main thread");
    let stack = vec![
        (Frame::Label(profile.intern_string("Root node")), other()),
        (Frame::Label(profile.intern_string("First callee")), other()),
    ];
    profile.add_sample(thread, time(0), stack.into_iter(), CpuDelta::zero(), 1);
    assert_eq!(
        thread_json(&profile, 0),
        concat_lines(&[
            "{\"frameTable\":{\"length\":2,\"address\":[-1,-1],\"inlineDepth\":[0,0],",
            "\"category\":[0,0],\"subcategory\":[0,0],\"func\":[0,1],\"nativeSymbol\":[null,null],",
            "\"innerWindowID\":[null,null],\"implementation\":[null,null],\"line\":[null,null],",
            "\"column\":[null,null],\"optimizations\":[null,null]},",
            "\"funcTable\":{\"length\":2,\"name\":[0,1],\"isJS\":[false,false],",
            "\"relevantForJS\":[false,false],\"resource\":[-1,-1],\"fileName\":[null,null],",
            "\"lineNumber\":[null,null],\"columnNumber\":[null,null]},",
            "\"markers\":{\"length\":0,\"category\":[],\"data\":[],\"endTime\":[],\"name\":[],\"phase\":[],\"startTime\":[]},",
            "\"name\":\"GeckoMain\",\"isMainThread\":true,",
            "\"nativeSymbols\":{\"length\":0,\"address\":[],\"functionSize\":[],\"libIndex\":[],\"name\":[]},",
            "\"pausedRanges\":[],\"pid\":\"54132\",\"processName\":\"App process\",",
            "\"processShutdownTime\":null,\"processStartupTime\":0ns,\"processType\":\"default\",",
            "\"registerTime\":0ns,",
            "\"resourceTable\":{\"length\":0,\"lib\":[],\"name\":[],\"host\":[],\"type\":[]},",
            "\"samples\":{\"length\":1,\"stack\":[1],\"time\":[0ns],\"weight\":[1],\"weightType\":\"samples\",\"threadCPUDelta\":[0]},",
            "\"stackTable\":{\"length\":2,\"prefix\":[null,0],\"frame\":[0,1],\"category\":[0,0],\"subcategory\":[0,0]},",
            "\"stringArray\":[\"Root node\",\"First callee\"],\"tid\":\"54132000\",\"unregisterTime\":null}",
        ])
    );
}

#[test]
fn interned_strings_share_a_handle() {
    let mut profile = new_profile();
    let a = profile.intern_string("a");
    let b = profile.intern_string("b");
    assert_ne!(a, b);
    assert_eq!(profile.intern_string("a"), a);
    assert_eq!(profile.intern_string("b"), b);
    for i in 0..100 {
        let handle = profile.intern_string(&format!("string {i}"));
        assert_eq!(handle, profile.intern_string(&format!("string {i}")));
    }
    assert_eq!(profile.intern_string("a"), a);
}

#[test]
fn equal_stacks_are_recorded_once() {
    let mut profile = new_profile();
    let process = profile.add_process("p", 1, time(0));
    let thread = profile.add_thread(process, 1, time(0), false);
    let a = (Frame::Label(profile.intern_string("a")), other());
    let b = (Frame::Label(profile.intern_string("b")), other());
    let one = profile.stack_index_for_frames(thread, vec![a, b].into_iter());
    let two = profile.stack_index_for_frames(thread, vec![a, b, a].into_iter());
    let three = profile.stack_index_for_frames(thread, vec![b].into_iter());
    assert_eq!(one, Some(1));
    assert_eq!(two, Some(2));
    assert_eq!(three, Some(3));
    assert_eq!(
        profile.stack_index_for_frames(thread, vec![a, b].into_iter()),
        one
    );
    assert_eq!(
        profile.stack_index_for_frames(thread, vec![a, b, a].into_iter()),
        two
    );
    assert_eq!(
        profile.stack_index_for_frames(thread, Vec::new().into_iter()),
        None
    );
    let json = profile.to_json();
    let thread = &items(entry(&json, "threads"))[0];
    assert_eq!(shown(thread, &["stackTable", "prefix"]), "[null,0,1,null]");
    assert_eq!(shown(thread, &["stackTable", "frame"]), "[0,1,0,1]");
    assert_eq!(shown(thread, &["frameTable", "length"]), "2");
}

#[test]
fn idle_samples_are_combined() {
    let mut profile = new_profile();
    let process = profile.add_process("p", 1, time(0));
    let thread = profile.add_thread(process, 1, time(0), false);
    let a = (Frame::Label(profile.intern_string("a")), other());
    profile.add_sample(
        thread,
        time(10),
        vec![a].into_iter(),
        CpuDelta::from_micros(5),
        1,
    );
    profile.add_sample_same_stack_zero_cpu(thread, time(20), 2);
    profile.add_sample_same_stack_zero_cpu(thread, time(30), 3);
    profile.add_sample_same_stack_zero_cpu(thread, time(40), -1);
    profile.add_sample(
        thread,
        time(50),
        Vec::new().into_iter(),
        CpuDelta::from_micros(6),
        1,
    );
    profile.add_sample_same_stack_zero_cpu(thread, time(60), 7);
    let json = profile.to_json();
    let samples = entry(&items(entry(&json, "threads"))[0], "samples");
    assert_eq!(shown(samples, &["length"]), "4");
    assert_eq!(shown(samples, &["stack"]), "[0,0,null,null]");
    assert_eq!(shown(samples, &["time"]), "[10ns,40ns,50ns,60ns]");
    assert_eq!(shown(samples, &["weight"]), "[1,4,1,7]");
    assert_eq!(shown(samples, &["threadCPUDelta"]), "[5,0,6,0]");
}

#[test]
fn idle_samples_may_come_first() {
    let mut profile = new_profile();
    let process = profile.add_process("p", 1, time(0));
    let thread = profile.add_thread(process, 1, time(0), false);
    profile.add_sample_same_stack_zero_cpu(thread, time(1), 1);
    profile.add_sample_same_stack_zero_cpu(thread, time(2), 1);
    let json = profile.to_json();
    let samples = entry(&items(entry(&json, "threads"))[0], "samples");
    assert_eq!(shown(samples, &["stack"]), "[null]");
    assert_eq!(shown(samples, &["time"]), "[2ns]");
    assert_eq!(shown(samples, &["weight"]), "[2]");
}

#[test]
fn addresses_are_resolved_against_loaded_libraries() {
    let mut profile = new_profile();
    let process = profile.add_process("p", 1, time(0));
    let thread = profile.add_thread(process, 1, time(0), false);
    profile.add_lib(process, library("libone", 0x1000, 0x2000, 0x800));
    profile.add_lib(process, library("libtwo", 0x2000, 0x3000, 0x2000));
    profile.add_kernel_lib(library("kernel", 0x2800, 0x4000, 0x2800));
    let frames = vec![
        // The last address of libone.
        (Frame::InstructionPointer(0x1fff), other()),
        // A return address at the start of libtwo belongs to a call in libone.
        (Frame::ReturnAddress(0x2000), other()),
        (Frame::InstructionPointer(0x2000), other()),
        // The kernel comes first.
        (Frame::InstructionPointer(0x2900), other()),
        (Frame::InstructionPointer(0x4000), other()),
        (Frame::ReturnAddress(0), other()),
    ];
    profile.add_sample(thread, time(0), frames.into_iter(), CpuDelta::zero(), 1);
    let json = profile.to_json();
    let thread = &items(entry(&json, "threads"))[0];
    // The two addresses in libone are the same, so they share a frame.
    assert_eq!(
        shown(thread, &["frameTable", "address"]),
        "[6143,0,256,-1,-1]"
    );
    assert_eq!(shown(thread, &["stackTable", "frame"]), "[0,0,1,2,3,4]");
    assert_eq!(shown(thread, &["funcTable", "resource"]), "[0,1,2,-1,-1]");
    assert_eq!(shown(thread, &["resourceTable", "lib"]), "[0,1,2]");
    assert_eq!(shown(thread, &["resourceTable", "type"]), "[1,1,1]");
    assert_eq!(
        shown(thread, &["stringArray"]),
        "[\"0x17ff\",\"libone\",\"0x0\",\"libtwo\",\"0x100\",\"kernel\",\"0x4000\"]"
    );
    assert_eq!(shown(thread, &["funcTable", "name"]), "[0,2,4,6,2]");
    assert_eq!(items(entry(&json, "libs")).len(), 3);
    assert_eq!(
        render(&items(entry(&json, "libs"))[1]),
        concat_lines(&[
            "{\"name\":\"libtwo\",\"path\":\"/lib/libtwo\",\"debugName\":\"libtwo.debug\",",
            "\"debugPath\":\"/lib/debug/libtwo\",\"breakpadId\":\"0123456789ABCDEF0123456789ABCDEF0\",",
            "\"codeId\":\"abcd\",\"arch\":null}",
        ])
    );
}

#[test]
fn unloaded_libraries_are_gone() {
    let mut profile = new_profile();
    let process = profile.add_process("p", 1, time(0));
    let thread = profile.add_thread(process, 1, time(0), false);
    let frame = (Frame::InstructionPointer(0x1800), other());
    profile.add_lib(process, library("libone", 0x1000, 0x3000, 0x1000));
    profile.add_lib(process, library("libtwo", 0x1400, 0x2000, 0x1400));
    let inner = profile.stack_index_for_frames(thread, vec![frame].into_iter());
    profile.unload_lib(process, 0x1400);
    let outer = profile.stack_index_for_frames(thread, vec![frame].into_iter());
    profile.unload_lib(process, 0x1000);
    let unknown = profile.stack_index_for_frames(thread, vec![frame].into_iter());
    profile.add_kernel_lib(library("kernel", 0, 0x8000, 0));
    let kernel = profile.stack_index_for_frames(thread, vec![frame].into_iter());
    profile.unload_kernel_lib(0);
    let again = profile.stack_index_for_frames(thread, vec![frame].into_iter());
    assert_eq!(
        [inner, outer, unknown, kernel, again],
        [Some(0), Some(1), Some(2), Some(3), Some(2)]
    );
    let json = profile.to_json();
    let thread = &items(entry(&json, "threads"))[0];
    assert_eq!(
        shown(thread, &["frameTable", "address"]),
        "[1024,2048,-1,6144]"
    );
}

#[test]
fn overlapping_libraries_are_told_apart_by_what_they_cover() {
    let mut profile = new_profile();
    let process = profile.add_process("p", 1, time(0));
    let thread = profile.add_thread(process, 1, time(0), false);
    profile.add_lib(process, library("outer", 0x1000, 0x4000, 0x1000));
    profile.add_lib(process, library("inner", 0x2000, 0x3000, 0x2000));
    profile.add_lib(process, library("short", 0x1000, 0x1800, 0x800));
    let frames = vec![
        // Of two that start at the same address, the one that was added last.
        (Frame::InstructionPointer(0x1400), other()),
        // Only the outer one covers these two.
        (Frame::InstructionPointer(0x1900), other()),
        (Frame::InstructionPointer(0x3800), other()),
        // Of two that cover it, the one that starts last.
        (Frame::InstructionPointer(0x2800), other()),
        (Frame::InstructionPointer(0x4000), other()),
    ];
    profile.add_sample(thread, time(0), frames.into_iter(), CpuDelta::zero(), 1);
    let json = profile.to_json();
    let thread = &items(entry(&json, "threads"))[0];
    assert_eq!(
        shown(thread, &["frameTable", "address"]),
        "[3072,2304,10240,2048,-1]"
    );
    let names: Vec<String> = items(entry(&json, "libs"))
        .iter()
        .map(|lib| shown(lib, &["name"]))
        .collect();
    assert_eq!(names, ["\"short\"", "\"outer\"", "\"inner\""]);
    assert_eq!(shown(thread, &["resourceTable", "lib"]), "[0,1,2]");
    assert_eq!(shown(thread, &["funcTable", "resource"]), "[0,1,1,2,-1]");
}

#[test]
fn libraries_locate_the_frames_of_their_own_process() {
    let mut profile = new_profile();
    let one = profile.add_process("one", 1, time(0));
    let two = profile.add_process("two", 2, time(1));
    let first = profile.add_thread(one, 1, time(0), false);
    let second = profile.add_thread(two, 2, time(0), false);
    profile.add_lib(one, library("lib", 0x1000, 0x2000, 0x1000));
    profile.add_kernel_lib(library("kernel", 0x8000, 0x9000, 0x8000));
    for thread in [first, second] {
        let frames = vec![
            (Frame::InstructionPointer(0x1010), other()),
            (Frame::InstructionPointer(0x8010), other()),
        ];
        profile.add_sample(thread, time(0), frames.into_iter(), CpuDelta::zero(), 1);
    }
    let json = profile.to_json();
    let threads = items(entry(&json, "threads"));
    assert_eq!(shown(&threads[0], &["frameTable", "address"]), "[16,16]");
    assert_eq!(shown(&threads[1], &["frameTable", "address"]), "[-1,16]");
}

#[test]
fn libraries_of_several_processes_are_shared() {
    let mut profile = new_profile();
    let one = profile.add_process("one", 1, time(0));
    let two = profile.add_process("two", 2, time(1));
    let first = profile.add_thread(one, 1, time(0), false);
    let second = profile.add_thread(two, 2, time(0), false);
    profile.add_lib(one, library("libc", 0x1000, 0x2000, 0x1000));
    profile.add_lib(one, library("unused", 0x5000, 0x6000, 0x5000));
    profile.add_lib(two, library("libc", 0x7000, 0x8000, 0x7000));
    let frame = (Frame::InstructionPointer(0x1010), other());
    profile.add_sample(first, time(0), vec![frame].into_iter(), CpuDelta::zero(), 1);
    let frame = (Frame::InstructionPointer(0x7010), other());
    profile.add_sample(second, time(0), vec![frame].into_iter(), CpuDelta::zero(), 1);
    let json = profile.to_json();
    assert_eq!(items(entry(&json, "libs")).len(), 1);
    for thread in items(entry(&json, "threads")) {
        assert_eq!(shown(thread, &["frameTable", "address"]), "[16]");
        assert_eq!(shown(thread, &["resourceTable", "lib"]), "[0]");
    }
}

#[test]
fn symbols_name_functions() {
    let mut profile = new_profile();
    let process = profile.add_process("p", 1, time(0));
    let thread = profile.add_thread(process, 1, time(0), false);
    let symbols = vec![
        Symbol {
            address: 0x10,
            size: Some(0x10),
            name: "main".to_string(),
        },
        Symbol {
            address: 0x40,
            size: None,
            name: "exit".to_string(),
        },
    ];
    profile.add_lib(
        process,
        LibraryInfo {
            base_avma: 0x1000,
            avma_range: 0x1000..0x2000,
            lib: lib("app", symbols),
        },
    );
    let frames = vec![
        (Frame::InstructionPointer(0x1010), other()),
        (Frame::InstructionPointer(0x101f), other()),
        (Frame::InstructionPointer(0x1020), other()),
        (Frame::InstructionPointer(0x1fff), other()),
    ];
    profile.add_sample(thread, time(0), frames.into_iter(), CpuDelta::zero(), 1);
    let json = profile.to_json();
    let thread = &items(entry(&json, "threads"))[0];
    assert_eq!(
        shown(thread, &["stringArray"]),
        "[\"main\",\"app\",\"0x20\",\"exit\"]"
    );
    assert_eq!(shown(thread, &["frameTable", "func"]), "[0,0,1,2]");
    assert_eq!(shown(thread, &["funcTable", "name"]), "[0,2,3]");
    assert_eq!(shown(thread, &["funcTable", "resource"]), "[0,0,0]");
}

#[test]
fn categories_have_handles() {
    let mut profile = new_profile();
    let blue = profile.add_category("Blue things", CategoryColor::Blue);
    assert_eq!(blue, CategoryHandle(1));
    let sky = profile.add_subcategory(blue, "Sky");
    let sea = profile.add_subcategory(blue, "Sea");
    assert_eq!(sky, CategoryPairHandle(blue, Some(SubcategoryIndex(0))));
    assert_eq!(sea, CategoryPairHandle(blue, Some(SubcategoryIndex(1))));
    let process = profile.add_process("p", 1, time(0));
    let thread = profile.add_thread(process, 1, time(0), false);
    let label = Frame::Label(profile.intern_string("x"));
    let frames = vec![(label, blue.into()), (label, sea), (label, sky), (label, other())];
    profile.add_sample(thread, time(0), frames.into_iter(), CpuDelta::zero(), 1);
    let json = profile.to_json();
    assert_eq!(
        shown(&json, &["meta", "categories"]),
        concat_lines(&[
            "[{\"name\":\"Other\",\"color\":\"grey\",\"subcategories\":[\"Other\"]},",
            "{\"name\":\"Blue things\",\"color\":\"blue\",\"subcategories\":[\"Sky\",\"Sea\",\"Other\"]}]",
        ])
    );
    let thread = &items(entry(&json, "threads"))[0];
    assert_eq!(shown(thread, &["frameTable", "category"]), "[1,1,1,0]");
    assert_eq!(shown(thread, &["frameTable", "subcategory"]), "[2,1,0,0]");
    assert_eq!(shown(thread, &["stackTable", "category"]), "[1,1,1,0]");
    assert_eq!(shown(thread, &["stackTable", "subcategory"]), "[2,1,0,0]");
    assert_eq!(shown(thread, &["funcTable", "length"]), "1");
}

#[test]
fn threads_are_listed_process_by_process() {
    let mut profile = new_profile();
    let late = profile.add_process("late", 1, time(20));
    let early = profile.add_process("early", 9, time(10));
    let twin = profile.add_process("twin", 3, time(10));
    let expected = [
        // The twin started with the early one and has the lower pid.
        (twin, 31, 0, false, None),
        (early, 91, 99, true, None),
        (early, 94, 1, false, None),
        (early, 93, 5, false, None),
        (early, 95, 5, false, Some("a")),
        (early, 92, 5, false, Some("b")),
        (early, 96, 5, false, Some("b")),
        (late, 11, 0, false, None),
    ];
    for i in [7, 5, 3, 1, 0, 2, 4, 6] {
        let (process, tid, start, is_main, name) = expected[i];
        let thread = profile.add_thread(process, tid, time(start), is_main);
        if let Some(name) = name {
            profile.set_thread_name(thread, name);
        }
    }
    let json = profile.to_json();
    let tids: Vec<String> = items(entry(&json, "threads"))
        .iter()
        .map(|thread| shown(thread, &["tid"]))
        .collect();
    let expected: Vec<String> = expected.iter().map(|t| format!("\"{}\"", t.1)).collect();
    assert_eq!(tids, expected);
}

#[test]
fn threads_that_nothing_tells_apart_keep_their_order() {
    let mut profile = new_profile();
    let one = profile.add_process("first", 1, time(0));
    let two = profile.add_process("second", 1, time(0));
    let a = profile.add_thread(two, 5, time(0), false);
    let b = profile.add_thread(one, 5, time(0), false);
    let c = profile.add_thread(one, 5, time(0), false);
    profile.set_thread_end_time(a, time(1));
    profile.set_thread_end_time(b, time(2));
    profile.set_thread_end_time(c, time(3));
    let json = profile.to_json();
    let ends: Vec<String> = items(entry(&json, "threads"))
        .iter()
        .map(|thread| shown(thread, &["unregisterTime"]))
        .collect();
    assert_eq!(ends, ["2ns", "3ns", "1ns"]);
}

#[test]
fn names_and_times_can_be_changed() {
    let mut profile = new_profile();
    profile.set_product("Another app");
    profile.set_interval(SamplingInterval::from_nanos(5));
    profile.set_reference_timestamp(ReferenceTimestamp::from_nanos_since_unix_epoch(6));
    let process = profile.add_process("p", 77, time(1));
    let thread = profile.add_thread(process, 4, time(2), false);
    let json = profile.to_json();
    assert_eq!(
        shown(&items(entry(&json, "threads"))[0], &["name"]),
        "\"Thread <4>\""
    );
    profile.set_process_name(process, "q");
    profile.set_process_start_time(process, time(3));
    profile.set_process_end_time(process, time(4));
    profile.set_thread_name(thread, "worker");
    profile.set_thread_start_time(thread, time(5));
    profile.set_thread_end_time(thread, time(6));
    let json = profile.to_json();
    assert_eq!(shown(&json, &["meta", "product"]), "\"Another app\"");
    assert_eq!(shown(&json, &["meta", "interval"]), "5ns");
    assert_eq!(shown(&json, &["meta", "startTime"]), "6ns");
    let thread = &items(entry(&json, "threads"))[0];
    assert_eq!(shown(thread, &["name"]), "\"worker\"");
    assert_eq!(shown(thread, &["pid"]), "\"77\"");
    assert_eq!(shown(thread, &["processName"]), "\"q\"");
    assert_eq!(shown(thread, &["processStartupTime"]), "3ns");
    assert_eq!(shown(thread, &["processShutdownTime"]), "4ns");
    assert_eq!(shown(thread, &["registerTime"]), "5ns");
    assert_eq!(shown(thread, &["unregisterTime"]), "6ns");
}

struct TextMarker(&'static str);

impl ProfilerMarker for TextMarker {
    const MARKER_TYPE_NAME: &'static str = "Text";

    fn schema() -> MarkerSchema {
        MarkerSchema {
            name: Self::MARKER_TYPE_NAME.to_string(),
            properties: vec![(
                "display".to_string(),
                Json::List(vec![Json::Text("marker-chart".to_string())]),
            )],
        }
    }

    fn json_marker_data(&self) -> Json {
        Json::Object(vec![
            ("type".to_string(), Json::Text("Text".to_string())),
            ("name".to_string(), Json::Text(self.0.to_string())),
        ])
    }
}

struct NumberMarker(i64);

impl ProfilerMarker for NumberMarker {
    const MARKER_TYPE_NAME: &'static str = "Number";

    fn schema() -> MarkerSchema {
        MarkerSchema {
            name: Self::MARKER_TYPE_NAME.to_string(),
            properties: Vec::new(),
        }
    }

    fn json_marker_data(&self) -> Json {
        Json::Int(self.0)
    }
}

#[test]
fn markers_bring_their_schemas() {
    let mut profile = new_profile();
    let process = profile.add_process("p", 1, time(0));
    let thread = profile.add_thread(process, 1, time(0), false);
    profile.add_marker(
        thread,
        "hello",
        TextMarker("world"),
        MarkerTiming::Instant(time(1)),
    );
    profile.add_marker(
        thread,
        "count",
        NumberMarker(-5),
        MarkerTiming::Interval(time(2), time(3)),
    );
    profile.add_marker(
        thread,
        "hello",
        TextMarker("moon"),
        MarkerTiming::IntervalStart(time(4)),
    );
    profile.add_marker(
        thread,
        "hello",
        TextMarker("sun"),
        MarkerTiming::IntervalEnd(time(5)),
    );
    let json = profile.to_json();
    assert_eq!(
        shown(&json, &["meta", "markerSchema"]),
        "[{\"name\":\"Number\"},{\"name\":\"Text\",\"display\":[\"marker-chart\"]}]"
    );
    let thread = &items(entry(&json, "threads"))[0];
    assert_eq!(
        shown(thread, &["markers"]),
        concat_lines(&[
            "{\"length\":4,\"category\":[0,0,0,0],\"data\":[",
            "{\"type\":\"Text\",\"name\":\"world\"},-5,",
            "{\"type\":\"Text\",\"name\":\"moon\"},{\"type\":\"Text\",\"name\":\"sun\"}],",
            "\"endTime\":[null,3ns,null,5ns],\"name\":[0,1,0,0],\"phase\":[0,1,2,3],",
            "\"startTime\":[1ns,2ns,4ns,null]}",
        ])
    );
    assert_eq!(shown(thread, &["stringArray"]), "[\"hello\",\"count\"]");
}

#[test]
fn a_schema_is_added_once() {
    let mut profile = new_profile();
    let schema = |name: &str| MarkerSchema {
        name: name.to_string(),
        properties: Vec::new(),
    };
    profile.add_marker_schema("key", schema("first"));
    profile.add_marker_schema("key", schema("second"));
    profile.add_marker_schema("other key", schema("a"));
    assert_eq!(
        shown(&profile.to_json(), &["meta", "markerSchema"]),
        "[{\"name\":\"a\"},{\"name\":\"first\"}]"
    );
}

#[test]
fn recorded_stacks_stay_when_more_is_recorded() {
    let mut profile = new_profile();
    let process = profile.add_process("p", 1, time(0));
    let thread = profile.add_thread(process, 1, time(0), false);
    profile.add_lib(process, library("lib", 0x1000, 0x2000, 0x1000));
    let label = (Frame::Label(profile.intern_string("a")), other());
    let native = (Frame::InstructionPointer(0x1004), other());
    profile.add_sample(
        thread,
        time(0),
        vec![label, native].into_iter(),
        CpuDelta::zero(),
        1,
    );
    let before = profile.to_json();
    for i in 0..50u64 {
        let frame = (Frame::InstructionPointer(0x1000 + i), other());
        profile.add_sample(
            thread,
            time(i),
            vec![frame, label, native].into_iter(),
            CpuDelta::from_micros(1),
            1,
        );
    }
    let after = profile.to_json();
    for (table, column) in [
        ("stackTable", "prefix"),
        ("stackTable", "frame"),
        ("frameTable", "address"),
        ("frameTable", "func"),
        ("funcTable", "name"),
    ] {
        let old = items(entry(entry(&items(entry(&before, "threads"))[0], table), column));
        let new = items(entry(entry(&items(entry(&after, "threads"))[0], table), column));
        assert!(old.len() < new.len());
        for (a, b) in old.iter().zip(new) {
            assert_eq!(render(a), render(b));
        }
    }
}
