//! The symbols of the running kernel, as `/proc/kallsyms` lists them.

use crate::hex::{
    digit_value, digits_end_at_the_first_other_byte, hex_len, hex_len_is_longest, hex_str,
    hex_value, hex_value_bound,
};
use crate::symbol_table::{
    has_address, is_table_of, last_at_or_below, symbol_at, symbols_view, Symbol, SymbolTable,
    SymbolView,
};
use crate::text::is_same_bytes;
use vstd::arithmetic::power::{lemma_pow_increases, pow};
use vstd::prelude::*;
use vstd::utf8::{decode_utf8, valid_utf8};

verus! {

/// One line of the file.
pub struct KallSymView {
    pub address: u64,
    pub name: Seq<u8>,
}

/// The line that `data` starts with, and what follows it.
///
/// The format is: hex address, space, letter, space, name, newline. The last line needs no
/// newline. There is no line where the data is at its end, or does not start with an address, or
/// ends within the three characters that follow it.
pub open spec fn first_line(data: Seq<u8>) -> Option<(KallSymView, Seq<u8>)> {
    let k = hex_len(data, 16);
    if k == 0 || data.len() < k + 3 {
        None
    } else {
        let address = hex_value(data.take(k as int)) as u64;
        let from_name = data.skip(k as int + 3);
        match from_name.index_of_first(0x0au8) {
            Some(n) => Some(
                (KallSymView { address, name: from_name.take(n) }, from_name.skip(n + 1)),
            ),
            None => Some((KallSymView { address, name: from_name }, Seq::empty())),
        }
    }
}

/// What follows a line is shorter than the data that the line was read from.
pub proof fn lemma_first_line_shortens(data: Seq<u8>)
    ensures
        first_line(data) matches Some((line, rest)) ==> rest.len() < data.len(),
{
    if let Some((line, rest)) = first_line(data) {
        let from_name = data.skip(hex_len(data, 16) as int + 3);
        from_name.index_of_first_ensures(0x0au8);
    }
}

/// All lines from the start of `data` to the first place where there is none.
pub open spec fn lines(data: Seq<u8>) -> Seq<KallSymView>
    decreases data.len(),
{
    proof {
        lemma_first_line_shortens(data);
    }
    match first_line(data) {
        Some((line, rest)) => seq![line] + lines(rest),
        None => Seq::empty(),
    }
}

/// The name of the symbol at the start of the kernel's code: `_text`.
pub open spec fn text_name() -> Seq<u8> {
    seq![0x5fu8, 0x74u8, 0x65u8, 0x78u8, 0x74u8]
}

/// How many lines stand before the first one that is named `_text`.
pub open spec fn lines_before_text(lines: Seq<KallSymView>) -> nat
    decreases lines.len(),
{
    if lines.len() == 0 || lines[0].name == text_name() {
        0
    } else {
        1 + lines_before_text(lines.drop_first())
    }
}

/// The lines from the first one that is named `_text` on.
pub open spec fn lines_from_text(lines: Seq<KallSymView>) -> Seq<KallSymView> {
    lines.skip(lines_before_text(lines) as int)
}

/// The distance from `base` up to `address`, in addresses that wrap around at 64 bits.
pub open spec fn distance(base: u64, address: u64) -> int {
    (address - base) % 0x1_0000_0000_0000_0000
}

/// The address of `_text`, and the offset from it and the name of each symbol from `_text` on.
/// There is no result without a `_text`, nor where an offset does not fit into 32 bits.
pub open spec fn text_symbols(data: Seq<u8>) -> Option<(u64, Seq<(u32, Seq<u8>)>)> {
    let listed = lines_from_text(lines(data));
    if listed.len() == 0 {
        None
    } else {
        let base = listed[0].address;
        if exists|i: int|
            0 <= i < listed.len() && distance(base, (#[trigger] listed[i]).address) > u32::MAX {
            None
        } else {
            Some((base, relative_to(base, listed)))
        }
    }
}

/// The offsets from `base` and the names of `listed`.
pub open spec fn relative_to(base: u64, listed: Seq<KallSymView>) -> Seq<(u32, Seq<u8>)> {
    listed.map_values(|line: KallSymView| (distance(base, line.address) as u32, line.name))
}

/// The symbols that stand for `relative`. None of them has a known size.
pub open spec fn named_symbols(relative: Seq<(u32, Seq<u8>)>) -> Seq<SymbolView> {
    Seq::new(
        relative.len(),
        |i: int|
            SymbolView {
                address: relative[i].0,
                size: None,
                name: if i == 0 {
                    "_text"@
                } else {
                    utf8_lossy(relative[i].1)
                },
            },
    )
}

/// The names that are valid UTF-8 are taken as they are.
pub open spec fn valid_names_are_kept(relative: Seq<(u32, Seq<u8>)>) -> bool {
    forall|i: int|
        0 < i < relative.len() && valid_utf8((#[trigger] relative[i]).1) ==> utf8_lossy(
            relative[i].1,
        ) == decode_utf8(relative[i].1)
}

/// What `String::from_utf8_lossy` makes of a byte string.
pub uninterp spec fn utf8_lossy(bytes: Seq<u8>) -> Seq<char>;

/// Calls `String::from_utf8_lossy`, whose result depends on the bytes alone: valid UTF-8 is
/// decoded as it is. What stands for bytes that are not valid is left unsaid.
#[verifier::external_body]
fn from_utf8_lossy(bytes: &[u8]) -> (s: String)
    ensures
        s@ == utf8_lossy(bytes@),
        valid_utf8(bytes@) ==> s@ == decode_utf8(bytes@),
{
    String::from_utf8_lossy(bytes).into_owned()
}

/// Calls `memchr::memchr`: the index of the first `needle` in `haystack`, if there is one.
#[verifier::external_body]
fn memchr(needle: u8, haystack: &[u8]) -> (index: Option<usize>)
    ensures
        match index {
            Some(n) => {
                &&& n < haystack@.len()
                &&& haystack@[n as int] == needle
                &&& forall|i: int| 0 <= i < n ==> haystack@[i] != needle
            },
            None => forall|i: int| 0 <= i < haystack@.len() ==> haystack@[i] != needle,
        },
{
    memchr::memchr(needle, haystack)
}

/// Goes through the lines of `/proc/kallsyms`.
pub struct KallSymIter<'a> {
    remaining_data: &'a [u8],
}

impl<'a> View for KallSymIter<'a> {
    type V = Seq<u8>;

    /// The data that has not been read yet.
    closed spec fn view(&self) -> Seq<u8> {
        self.remaining_data@
    }
}

impl<'a> KallSymIter<'a> {
    pub fn new(proc_kallsyms: &'a [u8]) -> (iter: Self)
        ensures
            iter@ == proc_kallsyms@,
    {
        KallSymIter { remaining_data: proc_kallsyms }
    }

    /// The address and the name on the next line.
    pub fn next(&mut self) -> (line: Option<(u64, &'a [u8])>)
        ensures
            match first_line(old(self)@) {
                Some((read, rest)) => {
                    &&& line matches Some((address, name)) && address == read.address && name@
                        == read.name
                    &&& final(self)@ == rest
                },
                None => line is None && final(self)@ == old(self)@,
            },
    {
        if self.remaining_data.len() == 0 {
            return None;
        }
        let ghost data = self.remaining_data@;
        let ghost k = hex_len(data, 16);
        // Format: <hex address> <space> <letter> <space> <name> \n
        let (after_address, address): (&'a [u8], u64) = match hex_str::<u64>(self.remaining_data) {
            Ok(parsed) => parsed,
            Err(_) => return None,
        };
        proof {
            lemma_address_fits(data);
            hex_len_is_longest(data, 16);
        }
        if after_address.len() < 3 {
            return None;
        }
        // Skip <space> <letter> <space>
        let starting_with_name: &'a [u8] = &after_address[3..after_address.len()];
        assert(starting_with_name@ =~= data.skip(k as int + 3));
        proof {
            starting_with_name@.index_of_first_ensures(0x0au8);
        }
        match memchr(0x0au8, starting_with_name) {
            Some(name_len) => {
                assert(starting_with_name@.index_of_first(0x0au8) == Some(name_len as int)) by {
                    assert(starting_with_name@.contains(0x0au8));
                }
                self.remaining_data =
                &starting_with_name[name_len + 1..starting_with_name.len()];
                let name: &'a [u8] = &starting_with_name[0..name_len];
                assert(self.remaining_data@ =~= starting_with_name@.skip(name_len + 1));
                assert(name@ =~= starting_with_name@.take(name_len as int));
                Some((address, name))
            },
            None => {
                self.remaining_data =
                &starting_with_name[starting_with_name.len()..starting_with_name.len()];
                assert(self.remaining_data@ =~= Seq::empty());
                Some((address, starting_with_name))
            },
        }
    }
}

/// The address at the start of a line fits into 64 bits.
proof fn lemma_address_fits(data: Seq<u8>)
    ensures
        hex_value(data.take(hex_len(data, 16) as int)) <= u64::MAX,
{
    let k = hex_len(data, 16);
    hex_len_is_longest(data, 16);
    hex_value_bound(data.take(k as int));
    lemma_pow_increases(16, k, 16);
    assert(pow(16, 16) == 0x1_0000_0000_0000_0000) by {
        reveal_with_fuel(pow, 17);
    }
}

/// Without a `_text` in `done`, the first one of `done + more` is that of `more`.
proof fn lemma_text_after(done: Seq<KallSymView>, more: Seq<KallSymView>)
    requires
        forall|i: int| 0 <= i < done.len() ==> (#[trigger] done[i]).name != text_name(),
    ensures
        lines_before_text(done + more) == done.len() + lines_before_text(more),
    decreases done.len(),
{
    if done.len() == 0 {
        assert(done + more =~= more);
    } else {
        assert((done + more)[0] == done[0]);
        assert((done + more).drop_first() =~= done.drop_first() + more);
        lemma_text_after(done.drop_first(), more);
    }
}

fn is_text_name(name: &[u8]) -> (r: bool)
    ensures
        r == (name@ == text_name()),
{
    let text: [u8; 5] = [0x5f, 0x74, 0x65, 0x78, 0x74];
    assert(text@ =~= text_name());
    is_same_bytes(name, &text)
}

/// The symbols from `_text` on: the address of `_text`, and the offset from it and the name of
/// each symbol. Symbols before `_text` are ignored.
pub fn parse_text_symbols<'a>(data: &'a [u8]) -> (r: Option<(u64, Vec<(u32, &'a [u8])>)>)
    ensures
        match r {
            Some((base, symbols)) => text_symbols(data@) == Some(
                (base, symbols@.map_values(|s: (u32, &'a [u8])| (s.0, s.1@))),
            ),
            None => text_symbols(data@) is None,
        },
{
    let ghost name_view = |s: (u32, &'a [u8])| (s.0, s.1@);
    let mut symbols: Vec<(u32, &'a [u8])> = Vec::new();
    let mut text_addr: Option<u64> = None;
    let mut iter: KallSymIter<'a> = KallSymIter::new(data);
    // The lines before `_text` that have been read, and those from it on.
    let ghost mut skipped: Seq<KallSymView> = Seq::empty();
    let ghost mut listed: Seq<KallSymView> = Seq::empty();
    assert(lines(data@) =~= skipped + listed + lines(iter@));
    loop
        invariant
            name_view == (|s: (u32, &'a [u8])| (s.0, s.1@)),
            lines(data@) == skipped + listed + lines(iter@),
            forall|i: int| 0 <= i < skipped.len() ==> (#[trigger] skipped[i]).name != text_name(),
            text_addr is None <==> listed.len() == 0,
            text_addr matches Some(base) ==> {
                &&& listed[0].name == text_name()
                &&& listed[0].address == base
                &&& symbols@.map_values(name_view) == relative_to(base, listed)
                &&& forall|i: int|
                    0 <= i < listed.len() ==> distance(base, (#[trigger] listed[i]).address)
                        <= u32::MAX
            },
            symbols@.len() == listed.len(),
        ensures
            lines(iter@).len() == 0,
        decreases iter@.len(),
    {
        let ghost before = iter@;
        proof {
            lemma_first_line_shortens(iter@);
        }
        match iter.next() {
            Some((absolute_addr, symbol_name)) => {
                let ghost line = KallSymView { address: absolute_addr, name: symbol_name@ };
                let ghost rest = lines(iter@);
                assert(lines(before) == seq![line] + rest);
                match text_addr {
                    Some(base) => {
                        let offset: u64 = absolute_addr.wrapping_sub(base);
                        assert(offset == distance(base, absolute_addr));
                        if offset > 0xffff_ffff {
                            proof {
                                lemma_listed(skipped, listed, lines(before), data@);
                                let all = listed + lines(before);
                                assert(all[listed.len() as int] == line);
                            }
                            return None;
                        }
                        let ghost symbols0 = symbols@;
                        symbols.push((offset as u32, symbol_name));
                        proof {
                            let longer = listed.push(line);
                            assert(symbols@.map_values(name_view) =~= symbols0.map_values(
                                name_view,
                            ).push((offset as u32, symbol_name@)));
                            assert(relative_to(base, longer) =~= relative_to(base, listed).push(
                                (offset as u32, symbol_name@),
                            ));
                            assert(skipped + listed + (seq![line] + rest) =~= skipped + longer
                                + rest);
                            listed = longer;
                        }
                    },
                    None => {
                        if is_text_name(symbol_name) {
                            text_addr = Some(absolute_addr);
                            symbols.push((0, symbol_name));
                            proof {
                                let first = listed.push(line);
                                assert(symbols@.map_values(name_view) =~= relative_to(
                                    absolute_addr,
                                    first,
                                ));
                                assert(skipped + listed + (seq![line] + rest) =~= skipped + first
                                    + rest);
                                listed = first;
                            }
                        } else {
                            // Ignore symbols before the _text symbol.
                            proof {
                                let longer = skipped.push(line);
                                assert(skipped + listed + (seq![line] + rest) =~= longer + listed
                                    + rest);
                                skipped = longer;
                            }
                        }
                    },
                }
            },
            None => {
                break;
            },
        }
    }
    match text_addr {
        Some(base) => {
            proof {
                lemma_listed(skipped, listed, lines(iter@), data@);
                assert(listed + lines(iter@) =~= listed);
            }
            Some((base, symbols))
        },
        None => {
            proof {
                assert(lines(data@) =~= skipped + Seq::empty());
                lemma_text_after(skipped, Seq::empty());
                assert(lines_from_text(lines(data@)) =~= Seq::empty());
            }
            None
        },
    }
}

/// Once `_text` has been met, the lines from it on are `listed` and all that follow.
proof fn lemma_listed(
    skipped: Seq<KallSymView>,
    listed: Seq<KallSymView>,
    more: Seq<KallSymView>,
    data: Seq<u8>,
)
    requires
        lines(data) == skipped + listed + more,
        forall|i: int| 0 <= i < skipped.len() ==> (#[trigger] skipped[i]).name != text_name(),
        listed.len() > 0,
        listed[0].name == text_name(),
    ensures
        lines_from_text(lines(data)) == listed + more,
{
    let tail = listed + more;
    assert(lines(data) =~= skipped + tail);
    lemma_text_after(skipped, tail);
    assert(tail[0] == listed[0]);
    assert((skipped + tail).skip(skipped.len() as int) =~= tail);
}

/// Parse the contents of `/proc/kallsyms`.
///
/// Returns the address of `_text` and the table of the symbols that are listed from there on,
/// with their addresses relative to it. Names that are not valid UTF-8 are converted lossily.
pub fn parse_kallsyms(data: &[u8]) -> (r: Option<(u64, SymbolTable)>)
    ensures
        match r {
            Some((base, table)) => {
                &&& text_symbols(data@) matches Some((text_addr, relative)) && base == text_addr
                    && is_table_of(table@, named_symbols(relative)) && valid_names_are_kept(
                    relative,
                )
            },
            None => text_symbols(data@) is None,
        },
{
    let (base, relative): (u64, Vec<(u32, &[u8])>) = match parse_text_symbols(data) {
        Some(parsed) => parsed,
        None => return None,
    };
    let ghost relative_view = relative@.map_values(|s: (u32, &[u8])| (s.0, s.1@));
    let mut symbols: Vec<Symbol> = Vec::with_capacity(relative.len());
    let mut i: usize = 0;
    while i < relative.len()
        invariant
            i <= relative@.len(),
            symbols@.len() == i,
            relative_view == relative@.map_values(|s: (u32, &[u8])| (s.0, s.1@)),
            forall|j: int|
                0 <= j < i ==> (#[trigger] symbols@[j])@ == named_symbols(relative_view)[j],
            valid_names_are_kept(relative_view.take(i as int)),
        decreases relative@.len() - i,
    {
        let (address, name_bytes): (u32, &[u8]) = relative[i];
        let name: String = if i == 0 {
            "_text".to_string()
        } else {
            from_utf8_lossy(name_bytes)
        };
        symbols.push(Symbol { address, size: None, name });
        proof {
            let known = relative_view.take(i as int);
            let longer = relative_view.take(i + 1);
            assert forall|j: int|
                0 < j < longer.len() && valid_utf8((#[trigger] longer[j]).1) implies utf8_lossy(
                longer[j].1,
            ) == decode_utf8(longer[j].1) by {
                if j < i {
                    assert(longer[j] == known[j]);
                }
            }
        }
        i = i + 1;
    }
    assert(relative_view.take(i as int) =~= relative_view);
    assert(symbols_view(symbols@) =~= named_symbols(relative_view));
    Some((base, SymbolTable::new(symbols)))
}

/// The lines from `_text` on start with `_text`, if there are any.
proof fn lemma_starts_with_text(all: Seq<KallSymView>)
    ensures
        lines_before_text(all) <= all.len(),
        lines_from_text(all).len() > 0 ==> lines_from_text(all)[0].name == text_name(),
    decreases all.len(),
{
    if all.len() > 0 && all[0].name != text_name() {
        lemma_starts_with_text(all.drop_first());
        assert(lines_from_text(all) =~= lines_from_text(all.drop_first()));
    }
}

/// Base address and offset lead back to the addresses of the file: the symbols are those from
/// `_text` on, each offset is the way from the base address to the address on the symbol's line,
/// and `_text` itself is at the base address.
pub proof fn offsets_lead_back_to_addresses(data: Seq<u8>)
    ensures
        text_symbols(data) matches Some((base, relative)) ==> {
            let listed = lines_from_text(lines(data));
            &&& relative.len() == listed.len() > 0
            &&& relative[0] == (0u32, text_name())
            &&& forall|i: int|
                0 <= i < relative.len() ==> {
                    &&& (#[trigger] relative[i]).1 == listed[i].name
                    &&& (base + relative[i].0) % 0x1_0000_0000_0000_0000 == listed[i].address
                }
        },
{
    let listed = lines_from_text(lines(data));
    lemma_starts_with_text(lines(data));
    if let Some((base, relative)) = text_symbols(data) {
        assert forall|i: int| 0 <= i < relative.len() implies {
            &&& (#[trigger] relative[i]).1 == listed[i].name
            &&& (base + relative[i].0) % 0x1_0000_0000_0000_0000 == listed[i].address
        } by {
            assert(distance(base, listed[i].address) <= u32::MAX);
        }
    }
}

/// Every offset is in a symbol: that of `_text`, or one that comes after it.
pub proof fn every_offset_has_a_symbol(
    relative: Seq<(u32, Seq<u8>)>,
    table: Seq<SymbolView>,
    offset: u32,
)
    requires
        relative.len() > 0,
        relative[0].0 == 0,
        is_table_of(table, named_symbols(relative)),
    ensures
        symbol_at(table, offset) matches Some(symbol) && symbol.address <= offset
            && named_symbols(relative).contains(symbol),
{
    let symbols = named_symbols(relative);
    assert(symbols[0].address == 0);
    assert(has_address(table, symbols[0].address));
    lemma_last_exists(table, offset);
    let found = last_at_or_below(table, offset)->0;
    let k = choose|k: int| 0 <= k < table.len() && table[k] == found;
    assert(symbols.contains(table[k]));
    let j = choose|j: int| 0 <= j < symbols.len() && symbols[j] == table[k];
    assert(symbols[j].size is None);
}

/// With a symbol at address zero, there is a last one at or before any address.
proof fn lemma_last_exists(table: Seq<SymbolView>, address: u32)
    requires
        has_address(table, 0),
    ensures
        last_at_or_below(table, address) matches Some(symbol) && symbol.address <= address
            && table.contains(symbol),
    decreases table.len(),
{
    let k = choose|k: int| 0 <= k < table.len() && (#[trigger] table[k]).address == 0;
    let last = table[table.len() - 1];
    if last.address <= address {
        assert(table.contains(last));
    } else {
        let shorter = table.drop_last();
        assert(shorter[k].address == 0);
        lemma_last_exists(shorter, address);
        let found = last_at_or_below(shorter, address)->0;
        let j = choose|j: int| 0 <= j < shorter.len() && shorter[j] == found;
        assert(table[j] == found);
    }
}

/// A line as it is written: the digits of the address, any three bytes, the name, a newline.
pub open spec fn written_line(address: Seq<u8>, between: Seq<u8>, name: Seq<u8>) -> Seq<u8> {
    address + between + name + seq![0x0au8]
}

/// A written line is read back, whatever the three bytes between address and name are, and
/// reading goes on with what follows it. The name is all that stands before the newline.
pub proof fn written_line_is_read_back(
    address: Seq<u8>,
    between: Seq<u8>,
    name: Seq<u8>,
    rest: Seq<u8>,
)
    requires
        1 <= address.len() <= 16,
        forall|i: int| 0 <= i < address.len() ==> digit_value(#[trigger] address[i]) is Some,
        between.len() == 3,
        address.len() == 16 || digit_value(between[0]) is None,
        forall|i: int| 0 <= i < name.len() ==> #[trigger] name[i] != 0x0au8,
    ensures
        lines(written_line(address, between, name) + rest).len() == 1 + lines(rest).len(),
        lines(written_line(address, between, name) + rest)[0].name == name,
        lines(written_line(address, between, name) + rest)[0].address == hex_value(address),
        forall|i: int|
            0 <= i < lines(rest).len() ==> lines(written_line(address, between, name) + rest)[i + 1]
                == #[trigger] lines(rest)[i],
        first_line(written_line(address, between, name) + rest) matches Some((_, behind))
            && behind == rest,
{
    let data = written_line(address, between, name) + rest;
    let behind_address = between + name + seq![0x0au8] + rest;
    assert(data =~= address + behind_address);
    assert(behind_address[0] == between[0]);
    digits_end_at_the_first_other_byte(address, behind_address, 16);
    let k = address.len() as int;
    assert(data.take(k) =~= address);
    lemma_address_fits(data);
    let from_name = data.skip(k + 3);
    assert(from_name =~= name + seq![0x0au8] + rest);
    let n = name.len() as int;
    assert(from_name[n] == 0x0au8);
    assert(from_name.contains(0x0au8));
    from_name.index_of_first_ensures(0x0au8);
    let found = from_name.index_of_first(0x0au8)->0;
    assert(found == n) by {
        if found < n {
            assert(from_name[found] == name[found]);
        }
    }
    assert(from_name.take(n) =~= name);
    assert(from_name.skip(n + 1) =~= rest);
    let line = KallSymView { address: hex_value(address) as u64, name };
    assert(first_line(data) == Some((line, rest)));
    assert(lines(data) =~= seq![line] + lines(rest));
}

/// A last line without a newline is read as well, and a line is read only if it starts with an
/// address and has three bytes behind it.
pub proof fn last_line_needs_no_newline(address: Seq<u8>, between: Seq<u8>, name: Seq<u8>)
    requires
        address.len() <= 16,
        forall|i: int| 0 <= i < address.len() ==> digit_value(#[trigger] address[i]) is Some,
        between.len() <= 3,
        address.len() == 16 || between.len() == 0 || digit_value(between[0]) is None,
        between.len() < 3 ==> name.len() == 0,
        forall|i: int| 0 <= i < name.len() ==> #[trigger] name[i] != 0x0au8,
    ensures
        address.len() == 0 || between.len() < 3 ==> lines(address + between + name).len() == 0,
        address.len() > 0 && between.len() == 3 ==> {
            &&& lines(address + between + name).len() == 1
            &&& lines(address + between + name)[0].name == name
            &&& lines(address + between + name)[0].address == hex_value(address)
        },
{
    let data = address + between + name;
    let behind_address = between + name;
    assert(data =~= address + behind_address);
    if between.len() > 0 {
        assert(behind_address[0] == between[0]);
    }
    digits_end_at_the_first_other_byte(address, behind_address, 16);
    let k = address.len() as int;
    if k > 0 && between.len() == 3 {
        assert(data.take(k) =~= address);
        lemma_address_fits(data);
        let from_name = data.skip(k + 3);
        assert(from_name =~= name);
        from_name.index_of_first_ensures(0x0au8);
        assert(!from_name.contains(0x0au8));
        let line = KallSymView { address: hex_value(address) as u64, name };
        assert(first_line(data) == Some((line, Seq::<u8>::empty())));
        lemma_no_lines();
        assert(lines(data) =~= seq![line]);
    }
}

/// Where there is no data, there are no lines.
proof fn lemma_no_lines()
    ensures
        lines(Seq::<u8>::empty()).len() == 0,
{
    hex_len_is_longest(Seq::<u8>::empty(), 16);
}

/// A file as it is written: one line for each entry of address, letter and name, with a space on
/// either side of the letter.
pub open spec fn written_file(entries: Seq<(Seq<u8>, u8, Seq<u8>)>) -> Seq<u8>
    decreases entries.len(),
{
    if entries.len() == 0 {
        Seq::empty()
    } else {
        written_line(
            entries[0].0,
            seq![0x20u8, entries[0].1, 0x20u8],
            entries[0].2,
        ) + written_file(entries.drop_first())
    }
}

/// A written file is read back: one line for each entry, with its address and its name, whatever
/// its letter is.
pub proof fn written_file_is_read_back(entries: Seq<(Seq<u8>, u8, Seq<u8>)>)
    requires
        forall|k: int|
            0 <= k < entries.len() ==> 1 <= (#[trigger] entries[k]).0.len() <= 16,
        forall|k: int, i: int|
            0 <= k < entries.len() && 0 <= i < entries[k].0.len() ==> digit_value(
                #[trigger] entries[k].0[i],
            ) is Some,
        forall|k: int, i: int|
            0 <= k < entries.len() && 0 <= i < entries[k].2.len() ==> #[trigger] entries[k].2[i]
                != 0x0au8,
    ensures
        lines(written_file(entries)).len() == entries.len(),
        forall|k: int|
            0 <= k < entries.len() ==> {
                &&& lines(written_file(entries))[k].address == hex_value(
                    (#[trigger] entries[k]).0,
                )
                &&& lines(written_file(entries))[k].name == entries[k].2
            },
    decreases entries.len(),
{
    if entries.len() == 0 {
        lemma_no_lines();
    } else {
        let others = entries.drop_first();
        let rest = written_file(others);
        assert forall|k: int| 0 <= k < others.len() implies 1 <= (#[trigger] others[k]).0.len()
            <= 16 by {
            assert(others[k] == entries[k + 1]);
        }
        assert forall|k: int, i: int|
            0 <= k < others.len() && 0 <= i < others[k].0.len() implies digit_value(
            #[trigger] others[k].0[i],
        ) is Some by {
            assert(others[k].0[i] == entries[k + 1].0[i]);
        }
        assert forall|k: int, i: int|
            0 <= k < others.len() && 0 <= i < others[k].2.len() implies #[trigger] others[k].2[i]
            != 0x0au8 by {
            assert(others[k].2[i] == entries[k + 1].2[i]);
        }
        written_file_is_read_back(others);
        let first = entries[0];
        let between = seq![0x20u8, first.1, 0x20u8];
        assert forall|i: int| 0 <= i < first.0.len() implies digit_value(
            #[trigger] first.0[i],
        ) is Some by {
            assert(digit_value(entries[0].0[i]) is Some);
        }
        assert forall|i: int| 0 <= i < first.2.len() implies #[trigger] first.2[i] != 0x0au8 by {
            assert(entries[0].2[i] != 0x0au8);
        }
        written_line_is_read_back(first.0, between, first.2, rest);
        let all = lines(written_file(entries));
        assert forall|k: int| 0 <= k < entries.len() implies {
            &&& all[k].address == hex_value((#[trigger] entries[k]).0)
            &&& all[k].name == entries[k].2
        } by {
            if k > 0 {
                assert(others[k - 1] == entries[k]);
                assert(all[k] == lines(rest)[k - 1]);
            }
        }
    }
}

/// The symbols are those from the first line on that is named `_text`, each with its name and its
/// way from the address of that line. If a way is too long for 32 bits, or no line has that name,
/// there is no result.
pub proof fn symbols_start_at_the_first_text(data: Seq<u8>, k: int)
    requires
        0 <= k <= lines(data).len(),
        forall|i: int|
            0 <= i < k ==> (#[trigger] lines(data)[i]).name != seq![
                0x5fu8,
                0x74u8,
                0x65u8,
                0x78u8,
                0x74u8,
            ],
        k < lines(data).len() ==> lines(data)[k].name == seq![
            0x5fu8,
            0x74u8,
            0x65u8,
            0x78u8,
            0x74u8,
        ],
    ensures
        k == lines(data).len() ==> text_symbols(data) is None,
        k < lines(data).len() ==> {
            let base = lines(data)[k].address;
            match text_symbols(data) {
                Some((text, relative)) => {
                    &&& text == base
                    &&& relative.len() == lines(data).len() - k
                    &&& forall|i: int|
                        0 <= i < relative.len() ==> {
                            &&& (#[trigger] relative[i]).1 == lines(data)[k + i].name
                            &&& (base + relative[i].0) % 0x1_0000_0000_0000_0000
                                == lines(data)[k + i].address
                        }
                },
                None => exists|i: int|
                    {
                        &&& k <= i < lines(data).len()
                        &&& ((#[trigger] lines(data)[i]).address - base)
                            % 0x1_0000_0000_0000_0000 > u32::MAX
                    },
            }
        },
{
    let all = lines(data);
    let before = all.take(k);
    let after = all.skip(k);
    assert(text_name() =~= seq![0x5fu8, 0x74u8, 0x65u8, 0x78u8, 0x74u8]);
    assert(all =~= before + after);
    lemma_text_after(before, after);
    assert(lines_from_text(all) =~= after) by {
        if k < all.len() {
            assert(after[0] == all[k]);
        }
    }
    offsets_lead_back_to_addresses(data);
    if k < all.len() {
        let base = all[k].address;
        match text_symbols(data) {
            Some((text, relative)) => {
                assert forall|i: int| 0 <= i < relative.len() implies {
                    &&& (#[trigger] relative[i]).1 == all[k + i].name
                    &&& (base + relative[i].0) % 0x1_0000_0000_0000_0000 == all[k + i].address
                } by {
                    assert(after[i] == all[k + i]);
                }
            },
            None => {
                let i = choose|i: int|
                    0 <= i < after.len() && distance(base, (#[trigger] after[i]).address)
                        > u32::MAX;
                assert(all[k + i] == after[i]);
            },
        }
    }
}

/// The symbols have no size and the addresses of the lines. The first is named `_text`, and each
/// other one by the bytes of its line.
pub proof fn symbols_are_named_by_their_lines(relative: Seq<(u32, Seq<u8>)>)
    ensures
        named_symbols(relative).len() == relative.len(),
        forall|i: int|
            0 <= i < relative.len() ==> {
                &&& (#[trigger] named_symbols(relative)[i]).address == relative[i].0
                &&& named_symbols(relative)[i].size is None
                &&& i > 0 ==> named_symbols(relative)[i].name == utf8_lossy(relative[i].1)
            },
        relative.len() > 0 ==> named_symbols(relative)[0].name == seq!['_', 't', 'e', 'x', 't'],
        valid_names_are_kept(relative) ==> forall|i: int|
            0 < i < relative.len() && valid_utf8((#[trigger] relative[i]).1) ==> named_symbols(
                relative,
            )[i].name == decode_utf8(relative[i].1),
{
    reveal_strlit("_text");
    if relative.len() > 0 {
        assert(named_symbols(relative)[0].name =~= seq!['_', 't', 'e', 'x', 't']);
    }
}

} // verus!
