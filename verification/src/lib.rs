//! Profile data for the Firefox Profiler, and the symbols of the running Linux kernel.

pub mod category;
pub mod digits;
pub mod elf_notes;
pub mod frame;
pub mod hex;
pub mod intern;
pub mod json;
pub mod kallsyms;
pub mod kernel_symbols;
pub mod library;
pub mod marker;
pub mod process;
pub mod profile;
pub mod sample_table;
pub mod sort;
pub mod stack_tables;
pub mod string_table;
pub mod symbol_table;
pub mod table_json;
pub mod text;
pub mod thread;
pub mod timestamp;
