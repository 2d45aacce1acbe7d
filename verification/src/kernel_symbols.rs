//! What is known of the running kernel.

use crate::elf_notes::{
    build_id, build_id_from_notes_section_data, native_endianness, Endianness,
};
use crate::kallsyms::{named_symbols, parse_kallsyms, text_symbols, valid_names_are_kept};
use crate::symbol_table::{is_table_of, SymbolTable};
use std::sync::Arc;
use vstd::prelude::*;

verus! {

/// The build ID of a kernel, the address of its code, and its symbols.
#[derive(Debug, Clone)]
pub struct KernelSymbols {
    pub build_id: Vec<u8>,
    pub base_avma: u64,
    pub symbol_table: Arc<SymbolTable>,
}

/// `symbols` is what the given build ID and the given contents of `/proc/kallsyms` say, and there
/// is nothing where either says nothing.
pub open spec fn describes_kernel(
    symbols: Option<KernelSymbols>,
    id: Option<Seq<u8>>,
    kallsyms: Seq<u8>,
) -> bool {
    match (id, text_symbols(kallsyms)) {
        (Some(id), Some((text_addr, relative))) => {
            &&& symbols matches Some(symbols) && symbols.build_id@ == id && symbols.base_avma
                == text_addr && is_table_of(symbols.symbol_table@, named_symbols(relative))
                && valid_names_are_kept(relative)
        },
        _ => symbols is None,
    }
}

impl KernelSymbols {
    /// The symbols of the kernel with the given build ID.
    pub fn from_build_id_and_kallsyms(build_id: &[u8], kallsyms: &[u8]) -> (symbols: Option<Self>)
        ensures
            describes_kernel(symbols, Some(build_id@), kallsyms@),
    {
        let (base_avma, symbol_table): (u64, SymbolTable) = match parse_kallsyms(kallsyms) {
            Some(parsed) => parsed,
            None => return None,
        };
        let build_id: Vec<u8> = vstd::slice::slice_to_vec(build_id);
        Some(KernelSymbols { build_id, base_avma, symbol_table: Arc::new(symbol_table) })
    }

    /// The symbols of the kernel of this machine, from the contents of `/sys/kernel/notes` and
    /// of `/proc/kallsyms`.
    pub fn from_notes_and_kallsyms(notes: &[u8], kallsyms: &[u8]) -> (symbols: Option<Self>)
        ensures
            exists|endian: Endianness| #[trigger]
                call_ensures(native_endianness, (), endian) && describes_kernel(
                    symbols,
                    build_id(notes@, endian),
                    kallsyms@,
                ),
    {
        match build_id_from_notes_section_data(notes) {
            Some(id) => KernelSymbols::from_build_id_and_kallsyms(id, kallsyms),
            None => None,
        }
    }
}

/// What is known of a kernel is its build ID, the address of `_text`, and a table of the symbols
/// from there on. Nothing is known only if there is no build ID or no such symbols.
pub proof fn kernel_is_described_by_both_files(
    symbols: Option<KernelSymbols>,
    id: Option<Seq<u8>>,
    kallsyms: Seq<u8>,
)
    requires
        describes_kernel(symbols, id, kallsyms),
    ensures
        symbols is Some <==> id is Some && text_symbols(kallsyms) is Some,
        symbols matches Some(symbols) ==> {
            &&& id == Some(symbols.build_id@)
            &&& text_symbols(kallsyms) matches Some((text, relative)) && symbols.base_avma == text
                && is_table_of((*symbols.symbol_table)@, named_symbols(relative))
                && valid_names_are_kept(relative)
        },
{
}

} // verus!
