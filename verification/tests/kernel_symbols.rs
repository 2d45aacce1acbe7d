use debugid::CodeId;
use samply::elf_notes::{
    align, build_id_from_notes_section_data, find_build_id, native_endianness, Endianness,
    NoteIterator, NOTE_HEADER_SIZE, NT_GNU_BUILD_ID,
};
use samply::hex::hex_str;
use samply::kallsyms::{parse_kallsyms, parse_text_symbols, KallSymIter};
use samply::kernel_symbols::KernelSymbols;
use samply::symbol_table::{Symbol, SymbolTable};

#[test]
fn test() {
    let build_id = build_id_from_notes_section_data(b"\x04\0\0\0\x14\0\0\0\x03\0\0\0GNU\0\x98Kvo\x1c\xb5i\x9c;\x1bw\xb5\x92\x98<\"\xe9\xd1\x97\xad\x06\0\0\0\x04\0\0\0\x01\x01\0\0Linux\0\0\0\0\0\0\0\x06\0\0\0\x01\0\0\0\0\x01\0\0Linux\0\0\0\0\0\0\0");
    let code_id = CodeId::from_binary(build_id.unwrap());
    assert_eq!(code_id.as_str(), "984b766f1cb5699c3b1b77b592983c22e9d197ad");
}

#[test]
fn test2() {
    let kallsyms = br#"ffff8000081e0000 T _text
ffff8000081f0000 t bcm2835_handle_irq
ffff8000081f0000 T _stext
ffff8000081f0000 T __irqentry_text_start
ffff8000081f0060 t bcm2836_arm_irqchip_handle_irq
ffff8000081f00e0 t dw_apb_ictl_handle_irq
ffff8000081f0190 t sun4i_handle_irq"#;
    let (base_avma, symbol_table) = parse_kallsyms(kallsyms).unwrap();
    assert_eq!(base_avma, 0xffff8000081e0000);
    assert_eq!(
        &symbol_table.lookup(0x10061).unwrap().name,
        "bcm2836_arm_irqchip_handle_irq"
    );
    assert_eq!(
        &symbol_table.lookup(0x10054).unwrap().name,
        "__irqentry_text_start"
    );
}

#[test]
fn test3() {
    let kallsyms = br#"0000000000000000 A fixed_percpu_data
0000000000000000 A __per_cpu_start
0000000000001000 A cpu_debug_store
0000000000002000 A irq_stack_backing_store
0000000000006000 A cpu_tss_rw
0000000000032080 A steal_time
00000000000320c0 A apf_reason
0000000000033000 A __per_cpu_end
ffffffffa7e00000 T startup_64
ffffffffa7e00000 T _stext
ffffffffa7e00000 T _text
ffffffffa7e00040 T secondary_startup_64
ffffffffa7e00045 T secondary_startup_64_no_verify
ffffffffa7e00110 t verify_cpu
ffffffffa7e00210 T sev_verify_cbit"#;
    let (base_avma, symbol_table) = parse_kallsyms(kallsyms).unwrap();
    assert_eq!(base_avma, 0xffffffffa7e00000);
    assert_eq!(
        &symbol_table.lookup(0x61).unwrap().name,
        "secondary_startup_64_no_verify"
    );
}

/// A note with the given parts, in little endian.
fn note(name: &[u8], n_type: u32, desc: &[u8], align: usize) -> Vec<u8> {
    let mut data = Vec::new();
    data.extend_from_slice(&(name.len() as u32).to_le_bytes());
    data.extend_from_slice(&(desc.len() as u32).to_le_bytes());
    data.extend_from_slice(&n_type.to_le_bytes());
    data.extend_from_slice(name);
    while data.len() % align != 0 {
        data.push(0);
    }
    data.extend_from_slice(desc);
    while data.len() % align != 0 {
        data.push(0);
    }
    data
}

#[test]
fn constants_are_those_of_the_elf_format() {
    assert_eq!(NT_GNU_BUILD_ID, object::elf::NT_GNU_BUILD_ID);
    assert_eq!(b"GNU", object::elf::ELF_NOTE_GNU);
    assert_eq!(
        NOTE_HEADER_SIZE,
        std::mem::size_of::<object::elf::NoteHeader64<object::NativeEndian>>()
    );
}

#[test]
fn notes_are_read_one_by_one() {
    let mut data = note(b"Linux\0", 0x101, b"abcde", 4);
    data.extend_from_slice(&note(b"GNU", 3, b"id", 4));
    let mut iter = NoteIterator::new(Endianness::Little, 4, &data).unwrap();
    let first = iter.next().unwrap();
    assert_eq!(first.name(), b"Linux");
    assert_eq!(first.desc(), b"abcde");
    assert_eq!(first.n_type(Endianness::Little), 0x101);
    assert_eq!(first.n_type(Endianness::Big), 0x0101_0000);
    let second = iter.next().unwrap();
    assert_eq!(second.name(), b"GNU");
    assert_eq!(second.desc(), b"id");
    assert!(iter.next().is_none());
    assert!(iter.next().is_none());
}

#[test]
fn the_last_note_needs_no_padding() {
    let mut data = note(b"GNU\0", 3, b"abcde", 4);
    data.truncate(12 + 4 + 5);
    assert_eq!(find_build_id(&data, Endianness::Little), Some(&b"abcde"[..]));
}

#[test]
fn an_alignment_of_eight_is_respected() {
    let mut data = note(b"GNU\0x", 3, b"abc", 8);
    assert_eq!(data.len(), 32);
    data.extend_from_slice(&note(b"B\0", 1, b"d", 8));
    let mut iter = NoteIterator::new(Endianness::Little, 8, &data).unwrap();
    assert_eq!(iter.next().unwrap().desc(), b"abc");
    assert_eq!(iter.next().unwrap().desc(), b"d");
    assert!(iter.next().is_none());
}

#[test]
fn alignments_are_checked() {
    let data = note(b"GNU\0x", 3, b"abc", 4);
    for align in 0..5u64 {
        let mut iter = NoteIterator::new(Endianness::Little, align, &data).unwrap();
        assert_eq!(iter.next().unwrap().desc(), b"abc");
    }
    assert!(NoteIterator::new(Endianness::Little, 5, &data).is_none());
    assert!(NoteIterator::new(Endianness::Little, 7, &data).is_none());
    assert!(NoteIterator::new(Endianness::Little, 8, &data).is_some());
    assert!(NoteIterator::new(Endianness::Little, 16, &data).is_none());
}

#[test]
fn a_big_endian_note_is_read_in_its_byte_order() {
    let data = b"\0\0\0\x04\0\0\0\x02\0\0\0\x03GNU\0\xab\xcd\0\0";
    assert_eq!(find_build_id(data, Endianness::Big), Some(&b"\xab\xcd"[..]));
    assert_eq!(find_build_id(data, Endianness::Little), None);
}

#[test]
fn truncated_notes_are_not_read() {
    let data = note(b"GNU\0", 3, b"0123456789", 4);
    assert!(find_build_id(&data, Endianness::Little).is_some());
    assert_eq!(find_build_id(&data[..11], Endianness::Little), None);
    assert_eq!(find_build_id(&data[..15], Endianness::Little), None);
    assert_eq!(find_build_id(&data[..25], Endianness::Little), None);
    assert!(find_build_id(&data[..26], Endianness::Little).is_some());
    assert_eq!(find_build_id(b"", Endianness::Little), None);
}

#[test]
fn notes_of_another_name_or_type_are_skipped() {
    let mut data = note(b"GNU\0", 1, b"no", 4);
    data.extend_from_slice(&note(b"Go\0", 3, b"no", 4));
    assert_eq!(find_build_id(&data, Endianness::Little), None);
    data.extend_from_slice(&note(b"GNU\0", 3, b"yes", 4));
    data.extend_from_slice(&note(b"GNU\0", 3, b"late", 4));
    assert_eq!(find_build_id(&data, Endianness::Little), Some(&b"yes"[..]));
}

#[test]
fn lines_are_read_one_by_one() {
    let mut iter = KallSymIter::new(b"1f T a b\nffffffffffffffff1 t x\n");
    assert_eq!(iter.next(), Some((0x1f, &b"a b"[..])));
    // Sixteen digits make up the address, and the three characters behind them are skipped.
    assert_eq!(iter.next(), Some((0xffff_ffff_ffff_ffff, &b" x"[..])));
    assert_eq!(iter.next(), None);
    assert_eq!(iter.next(), None);
}

#[test]
fn reading_ends_at_a_line_without_an_address() {
    let mut iter = KallSymIter::new(b"10 T a\nxyz\n20 T b\n");
    assert_eq!(iter.next(), Some((0x10, &b"a"[..])));
    assert_eq!(iter.next(), None);
    let mut iter = KallSymIter::new(b"10 T");
    assert_eq!(iter.next(), None);
    let mut iter = KallSymIter::new(b"10 T ");
    assert_eq!(iter.next(), Some((0x10, &b""[..])));
    assert_eq!(iter.next(), None);
}

#[test]
fn offsets_and_base_give_the_addresses() {
    let data = b"5 T before\n1000 T _text\n1010 T f\n1100 T _text\n";
    let (base, symbols) = parse_text_symbols(data).unwrap();
    assert_eq!(base, 0x1000);
    assert_eq!(
        symbols,
        vec![(0, &b"_text"[..]), (0x10, &b"f"[..]), (0x100, &b"_text"[..])]
    );
}

#[test]
fn offsets_have_to_fit() {
    assert!(parse_kallsyms(b"0 T _text\nffffffff T a\n").is_some());
    assert!(parse_kallsyms(b"0 T _text\n100000000 T a\n").is_none());
    assert!(parse_kallsyms(b"100 T _text\n10 T a\n").is_none());
    assert!(parse_kallsyms(b"10 T text\n").is_none());
    assert!(parse_kallsyms(b"").is_none());
}

#[test]
fn names_are_converted_lossily() {
    let (_, table) = parse_kallsyms(b"0 T _text\n10 T a\xffb\n20 T \xc3\xa9\n").unwrap();
    assert_eq!(table.lookup(0x10).unwrap().name, "a\u{fffd}b");
    assert_eq!(table.lookup(0x20).unwrap().name, "\u{e9}");
    assert_eq!(table.lookup(0xf).unwrap().name, "_text");
}

#[test]
fn kernel_symbols_come_from_both_files() {
    let mut notes = note(b"GNU\0", 3, b"\x01\x02", 4);
    if object::Endian::is_big_endian(object::NativeEndian) {
        notes = b"\0\0\0\x04\0\0\0\x02\0\0\0\x03GNU\0\x01\x02\0\0".to_vec();
    }
    let symbols =
        KernelSymbols::from_notes_and_kallsyms(&notes, b"4000 T _text\n4010 t f\n").unwrap();
    assert_eq!(symbols.build_id, vec![1, 2]);
    assert_eq!(symbols.base_avma, 0x4000);
    assert_eq!(symbols.symbol_table.lookup(0x11).unwrap().name, "f");
    assert!(KernelSymbols::from_notes_and_kallsyms(b"", b"4000 T _text\n").is_none());
    assert!(KernelSymbols::from_notes_and_kallsyms(&notes, b"4000 T text\n").is_none());
    assert!(KernelSymbols::from_build_id_and_kallsyms(b"", b"4000 T _text\n").is_some());
}

#[test]
fn hex_digits_are_read() {
    assert_eq!(hex_str::<u32>(b"1fG"), Ok((&b"G"[..], 0x1fu32)));
    assert_eq!(hex_str::<u32>(b"DeadBeef0"), Ok((&b"0"[..], 0xdead_beefu32)));
    assert_eq!(
        hex_str::<u64>(b"0123456789abcdefff"),
        Ok((&b"ff"[..], 0x0123_4567_89ab_cdefu64))
    );
    assert_eq!(hex_str::<u64>(b"x1"), Err("Bad hex digit"));
    assert_eq!(hex_str::<u64>(b""), Err("Bad hex digit"));
}

fn symbol(address: u32, size: Option<u32>, name: &str) -> Symbol {
    Symbol {
        address,
        size,
        name: name.to_string(),
    }
}

#[test]
fn symbol_tables_are_sorted_and_hold_one_symbol_per_address() {
    let table = SymbolTable::new(vec![
        symbol(0x30, Some(0x10), "d"),
        symbol(0x10, Some(4), "b"),
        symbol(0x10, None, "c"),
        symbol(0x10, None, "a"),
    ]);
    assert!(table.lookup(0xf).is_none());
    assert_eq!(table.lookup(0x10).unwrap().name, "a");
    assert_eq!(table.lookup(0x2f).unwrap().name, "a");
    assert_eq!(table.lookup(0x3f).unwrap().name, "d");
    assert!(table.lookup(0x40).is_none());
    assert!(SymbolTable::new(Vec::new()).lookup(0).is_none());
}

#[test]
fn the_order_of_the_symbols_does_not_matter() {
    let forward = SymbolTable::new(vec![
        symbol(1, None, "a"),
        symbol(1, None, "b"),
        symbol(2, Some(1), "c"),
        symbol(2, Some(2), "d"),
    ]);
    let backward = SymbolTable::new(vec![
        symbol(2, Some(2), "d"),
        symbol(2, Some(1), "c"),
        symbol(1, None, "b"),
        symbol(1, None, "a"),
    ]);
    assert!(forward.is_same(&backward));
    let other = SymbolTable::new(vec![symbol(1, None, "a")]);
    assert!(!forward.is_same(&other));
}

#[test]
fn every_offset_is_in_a_symbol() {
    let (_, table) = parse_kallsyms(b"8000 T _text\n8123 t f\n").unwrap();
    for (offset, name) in [(0, "_text"), (0x122, "_text"), (0x123, "f"), (u32::MAX, "f")] {
        assert_eq!(table.lookup(offset).unwrap().name, name);
    }
}

#[test]
fn offsets_are_aligned_to_powers_of_two() {
    for exponent in 0..16 {
        let size = 1usize << exponent;
        for offset in [0, 1, 3, 4, 5, 12, 1000, 65_537] {
            let aligned = align(offset, size);
            assert_eq!(aligned % size, 0);
            assert!(offset <= aligned && aligned < offset + size);
            assert_eq!(align(aligned, size), aligned);
        }
    }
    assert_eq!(align(13, 16), 16);
    assert_eq!(align(usize::MAX - 1, 2), usize::MAX - 1);
}

#[test]
fn notes_are_read_in_the_byte_order_of_the_machine() {
    let little = note(b"GNU\0", 3, b"little", 4);
    let big = b"\0\0\0\x04\0\0\0\x02\0\0\0\x03GNU\0\xab\xcd\0\0";
    let (expected, id) = if object::Endian::is_big_endian(object::NativeEndian) {
        (Endianness::Big, build_id_from_notes_section_data(big))
    } else {
        (Endianness::Little, build_id_from_notes_section_data(&little))
    };
    assert_eq!(native_endianness(), expected);
    assert!(id.is_some());
}
