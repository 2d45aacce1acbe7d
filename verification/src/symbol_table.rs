//! The symbols of a library.

use crate::sort::{in_order, merge_sort, reversed, Ranked};
use crate::text::{
    is_same_text, is_text_le, text_le, text_le_antisymmetric, text_le_total, text_le_transitive,
};
use vstd::prelude::*;

verus! {

/// A named range of code, relative to the start of its library.
#[derive(Debug, Clone)]
pub struct Symbol {
    /// The start, relative to the base address of the library.
    pub address: u32,
    /// The length of the range, if it is known.
    pub size: Option<u32>,
    pub name: String,
}

/// What a [`Symbol`] says.
pub struct SymbolView {
    pub address: u32,
    pub size: Option<u32>,
    pub name: Seq<char>,
}

impl View for Symbol {
    type V = SymbolView;

    open spec fn view(&self) -> SymbolView {
        SymbolView { address: self.address, size: self.size, name: self.name@ }
    }
}

/// The order of symbols: by address, then by size with unknown sizes first, then by name.
pub open spec fn symbol_le(a: SymbolView, b: SymbolView) -> bool {
    if a.address != b.address {
        a.address < b.address
    } else if a.size != b.size {
        match (a.size, b.size) {
            (None, _) => true,
            (Some(_), None) => false,
            (Some(x), Some(y)) => x < y,
        }
    } else {
        text_le(a.name, b.name)
    }
}

/// Symbols that are ordered both ways are the same.
pub proof fn symbol_le_antisymmetric(a: SymbolView, b: SymbolView)
    requires
        symbol_le(a, b),
        symbol_le(b, a),
    ensures
        a == b,
{
    text_le_antisymmetric(a.name, b.name);
}

impl Ranked for Symbol {
    open spec fn ranked_le(self, other: Self) -> bool {
        symbol_le(self@, other@)
    }

    proof fn ranked_total(a: Self, b: Self) {
        text_le_total(a.name@, b.name@);
    }

    proof fn ranked_transitive(a: Self, b: Self, c: Self) {
        if a.address == b.address && b.address == c.address && a.size == b.size && b.size
            == c.size {
            text_le_transitive(a.name@, b.name@, c.name@);
        }
    }

    fn is_ranked_le(&self, other: &Self) -> (r: bool) {
        if self.address != other.address {
            return self.address < other.address;
        }
        match (self.size, other.size) {
            (None, None) => is_text_le(self.name.as_str(), other.name.as_str()),
            (None, Some(_)) => true,
            (Some(_), None) => false,
            (Some(x), Some(y)) => if x != y {
                x < y
            } else {
                is_text_le(self.name.as_str(), other.name.as_str())
            },
        }
    }
}

/// The symbols of `symbols`, as a table shows them.
pub open spec fn symbols_view(symbols: Seq<Symbol>) -> Seq<SymbolView> {
    symbols.map_values(|s: Symbol| s@)
}

/// No two symbols of the table share an address, and the addresses ascend.
pub open spec fn ascending(table: Seq<SymbolView>) -> bool {
    forall|i: int, j: int|
        0 <= i < j < table.len() ==> (#[trigger] table[i]).address < (#[trigger] table[j]).address
}

/// `table` holds one symbol for each address in `symbols`, in the order of the addresses: the
/// one that comes first in the order of symbols.
pub open spec fn is_table_of(table: Seq<SymbolView>, symbols: Seq<SymbolView>) -> bool {
    &&& ascending(table)
    &&& forall|i: int|
        0 <= i < table.len() ==> symbols.contains(#[trigger] table[i]) && forall|k: int|
            0 <= k < symbols.len() && (#[trigger] symbols[k]).address == table[i].address
                ==> symbol_le(table[i], symbols[k])
    &&& forall|k: int|
        0 <= k < symbols.len() ==> has_address(table, (#[trigger] symbols[k]).address)
}

/// A symbol of the table starts at `address`.
pub open spec fn has_address(table: Seq<SymbolView>, address: u32) -> bool {
    exists|i: int| 0 <= i < table.len() && (#[trigger] table[i]).address == address
}

/// The last symbol that starts at or before `address`.
pub open spec fn last_at_or_below(table: Seq<SymbolView>, address: u32) -> Option<SymbolView>
    decreases table.len(),
{
    if table.len() == 0 {
        None
    } else if table.last().address <= address {
        Some(table.last())
    } else {
        last_at_or_below(table.drop_last(), address)
    }
}

/// `address`, which is not before the start of `symbol`, is not behind its end either. A symbol
/// of unknown size has no end.
pub open spec fn reaches(symbol: SymbolView, address: u32) -> bool {
    match symbol.size {
        Some(size) => address - symbol.address < size,
        None => true,
    }
}

/// The symbol that `address` lies in.
pub open spec fn symbol_at(table: Seq<SymbolView>, address: u32) -> Option<SymbolView> {
    match last_at_or_below(table, address) {
        Some(symbol) => if reaches(symbol, address) {
            Some(symbol)
        } else {
            None
        },
        None => None,
    }
}

/// A symbol table: at most one symbol for each address, sorted by address.
#[derive(Debug)]
pub struct SymbolTable {
    symbols: Vec<Symbol>,
}

impl View for SymbolTable {
    type V = Seq<SymbolView>;

    closed spec fn view(&self) -> Seq<SymbolView> {
        symbols_view(self.symbols@)
    }
}

impl SymbolTable {
    #[verifier::type_invariant]
    spec fn inv(self) -> bool {
        ascending(symbols_view(self.symbols@))
    }

    /// Create a symbol table. Of several symbols at one address, only the first in the order of
    /// symbols is kept.
    pub fn new(symbols: Vec<Symbol>) -> (table: Self)
        ensures
            is_table_of(table@, symbols_view(symbols@)),
    {
        let ghost all = symbols@;
        let ranked: Vec<Symbol> = merge_sort(symbols);
        let ghost order = ranked@;
        assert(order.skip(0) =~= order);
        let mut sorted: Vec<Symbol> = reversed(ranked);
        let mut kept: Vec<Symbol> = Vec::new();
        let ghost mut taken: int = 0;
        while sorted.len() > 0
            invariant
                0 <= taken <= order.len(),
                in_order(order),
                sorted@ == order.skip(taken).reverse(),
                ascending(symbols_view(kept@)),
                taken > 0 <==> kept@.len() > 0,
                taken > 0 ==> kept@.last().address == order[taken - 1].address,
                forall|i: int|
                    0 <= i < kept@.len() ==> first_of_address(order, #[trigger] kept@[i]),
                forall|k: int|
                    0 <= k < taken ==> has_address(
                        symbols_view(kept@),
                        (#[trigger] order[k]).address,
                    ),
            decreases sorted@.len(),
        {
            let ghost kept0 = kept@;
            let ghost rest = order.skip(taken);
            assert(rest.reverse().last() == rest[0]);
            match sorted.pop() {
                Some(symbol) => {
                    assert(symbol == order[taken]);
                    assert(sorted@ =~= order.skip(taken + 1).reverse());
                    let repeated: bool = kept.len() > 0 && kept[kept.len() - 1].address
                        == symbol.address;
                    if !repeated {
                        kept.push(symbol);
                        proof {
                            let view0 = symbols_view(kept0);
                            let view1 = symbols_view(kept@);
                            assert(view1 =~= view0.push(symbol@));
                            assert forall|i: int| 0 <= i < view0.len() implies (
                            #[trigger] view1[i]).address < symbol.address by {
                                if i < view0.len() - 1 {
                                    assert(view0[i].address < view0[view0.len() - 1].address);
                                }
                                assert(kept0.last().address == order[taken - 1].address);
                            }
                            assert forall|k: int|
                                0 <= k < order.len() && (#[trigger] order[k]).address
                                    == symbol.address implies symbol_le(symbol@, order[k]@) by {
                                if k < taken {
                                    assert(kept0.len() > 0);
                                    assert(order[k].address <= order[taken - 1].address);
                                } else if k == taken {
                                    Symbol::ranked_total(symbol, symbol);
                                }
                            }
                            assert(first_of_address(order, symbol));
                            assert forall|k: int| 0 <= k < taken + 1 implies has_address(
                                view1,
                                (#[trigger] order[k]).address,
                            ) by {
                                if k < taken {
                                    let i = choose|i: int|
                                        0 <= i < view0.len() && (#[trigger] view0[i]).address
                                            == order[k].address;
                                    assert(view1[i].address == order[k].address);
                                } else {
                                    assert(view1[view0.len() as int].address == order[k].address);
                                }
                            }
                        }
                    } else {
                        proof {
                            let view0 = symbols_view(kept0);
                            assert(view0[view0.len() - 1].address == order[taken].address);
                        }
                    }
                    proof {
                        taken = taken + 1;
                    }
                },
                None => {},
            }
        }
        proof {
            assert(taken == order.len()) by {
                assert(order.skip(taken).reverse().len() == 0);
            }
            lemma_table_of(symbols_view(kept@), kept@, order, all);
        }
        SymbolTable { symbols: kept }
    }

    /// Find the symbol that contains `address`, which is relative to the base address of the
    /// library.
    pub fn lookup(&self, address: u32) -> (symbol: Option<&Symbol>)
        ensures
            match symbol {
                Some(symbol) => symbol_at(self@, address) == Some(symbol@),
                None => symbol_at(self@, address) is None,
            },
    {
        proof {
            use_type_invariant(self);
        }
        // The symbols below `low` start at or before the address, those from `high` on after it.
        let mut low: usize = 0;
        let mut high: usize = self.symbols.len();
        while low < high
            invariant
                low <= high <= self.symbols@.len(),
                ascending(symbols_view(self.symbols@)),
                forall|i: int| 0 <= i < low ==> (#[trigger] self.symbols@[i]).address <= address,
                forall|i: int|
                    high <= i < self.symbols@.len() ==> (#[trigger] self.symbols@[i]).address
                        > address,
            decreases high - low,
        {
            let mid: usize = low + (high - low) / 2;
            let ghost view = symbols_view(self.symbols@);
            if self.symbols[mid].address <= address {
                assert forall|i: int| 0 <= i < mid + 1 implies (
                #[trigger] self.symbols@[i]).address <= address by {
                    if i < mid {
                        assert(view[i].address < view[mid as int].address);
                    }
                }
                low = mid + 1;
            } else {
                assert forall|i: int| mid <= i < self.symbols@.len() implies (
                #[trigger] self.symbols@[i]).address > address by {
                    if mid < i {
                        assert(view[mid as int].address < view[i].address);
                    }
                }
                high = mid;
            }
        }
        proof {
            lemma_last_at_or_below(self@, address, low as int);
        }
        if low == 0 {
            return None;
        }
        let symbol: &Symbol = &self.symbols[low - 1];
        match symbol.size {
            Some(size) => if address - symbol.address < size {
                Some(symbol)
            } else {
                None
            },
            None => Some(symbol),
        }
    }

    /// Two tables hold the same symbols.
    pub fn is_same(&self, other: &SymbolTable) -> (r: bool)
        ensures
            r == (self@ == other@),
    {
        if self.symbols.len() != other.symbols.len() {
            assert(self@.len() != other@.len());
            return false;
        }
        let mut i: usize = 0;
        while i < self.symbols.len()
            invariant
                i <= self.symbols@.len(),
                self.symbols@.len() == other.symbols@.len(),
                forall|j: int| 0 <= j < i ==> #[trigger] self@[j] == other@[j],
            decreases self.symbols@.len() - i,
        {
            let a: &Symbol = &self.symbols[i];
            let b: &Symbol = &other.symbols[i];
            if a.address != b.address || a.size != b.size || !is_same_text(
                a.name.as_str(),
                b.name.as_str(),
            ) {
                assert(self@[i as int] != other@[i as int]);
                return false;
            }
            assert(self@[i as int] == other@[i as int]);
            i = i + 1;
        }
        assert(self@ =~= other@);
        true
    }
}

/// `symbol` is one of `order`, and comes before all others of its address.
spec fn first_of_address(order: Seq<Symbol>, symbol: Symbol) -> bool {
    &&& order.contains(symbol)
    &&& forall|k: int|
        0 <= k < order.len() && (#[trigger] order[k]).address == symbol.address ==> symbol_le(
            symbol@,
            order[k]@,
        )
}

proof fn lemma_table_of(
    table: Seq<SymbolView>,
    kept: Seq<Symbol>,
    order: Seq<Symbol>,
    all: Seq<Symbol>,
)
    requires
        table == symbols_view(kept),
        ascending(table),
        order.to_multiset() == all.to_multiset(),
        forall|i: int| 0 <= i < kept.len() ==> first_of_address(order, #[trigger] kept[i]),
        forall|k: int|
            0 <= k < order.len() ==> has_address(table, (#[trigger] order[k]).address),
    ensures
        is_table_of(table, symbols_view(all)),
{
    let views = symbols_view(all);
    assert forall|s: Symbol| order.contains(s) == all.contains(s) by {
        vstd::seq_lib::to_multiset_contains(order, s);
        vstd::seq_lib::to_multiset_contains(all, s);
    }
    assert forall|i: int| 0 <= i < table.len() implies views.contains(#[trigger] table[i])
        && forall|k: int|
        0 <= k < views.len() && (#[trigger] views[k]).address == table[i].address ==> symbol_le(
            table[i],
            views[k],
        ) by {
        assert(first_of_address(order, kept[i]));
        assert(all.contains(kept[i]));
        let n = choose|n: int| 0 <= n < all.len() && all[n] == kept[i];
        assert(views[n] == table[i]);
        assert forall|k: int|
            0 <= k < views.len() && (#[trigger] views[k]).address
                == table[i].address implies symbol_le(table[i], views[k]) by {
            assert(all.contains(all[k]));
            assert(order.contains(all[k]));
            let m = choose|m: int| 0 <= m < order.len() && order[m] == all[k];
            assert(order[m].address == kept[i].address);
        }
    }
    assert forall|k: int| 0 <= k < views.len() implies has_address(
        table,
        (#[trigger] views[k]).address,
    ) by {
        assert(all.contains(all[k]));
        assert(order.contains(all[k]));
        let m = choose|m: int| 0 <= m < order.len() && order[m] == all[k];
        assert(has_address(table, order[m].address));
    }
}

/// When exactly the first `n` symbols start at or before `address`, the last of them is found.
proof fn lemma_last_at_or_below(table: Seq<SymbolView>, address: u32, n: int)
    requires
        0 <= n <= table.len(),
        forall|i: int| 0 <= i < n ==> (#[trigger] table[i]).address <= address,
        forall|i: int| n <= i < table.len() ==> (#[trigger] table[i]).address > address,
    ensures
        last_at_or_below(table, address) == if n == 0 {
            None
        } else {
            Some(table[n - 1])
        },
    decreases table.len(),
{
    if n < table.len() {
        lemma_last_at_or_below(table.drop_last(), address, n);
    }
}

/// The symbol that a table gives for an address starts at or before it, and no other symbol of
/// the table starts between the two.
pub proof fn symbol_at_is_nearest(table: Seq<SymbolView>, address: u32)
    requires
        ascending(table),
    ensures
        symbol_at(table, address) matches Some(symbol) ==> {
            &&& table.contains(symbol)
            &&& symbol.address <= address
            &&& forall|i: int|
                0 <= i < table.len() ==> !(symbol.address < (#[trigger] table[i]).address
                    <= address)
        },
    decreases table.len(),
{
    if table.len() > 0 {
        let shorter = table.drop_last();
        if table.last().address <= address {
            assert(table[table.len() - 1] == table.last());
        } else {
            symbol_at_is_nearest(shorter, address);
            assert(symbol_at(shorter, address) == symbol_at(table, address));
            if let Some(symbol) = symbol_at(shorter, address) {
                let n = choose|n: int| 0 <= n < shorter.len() && shorter[n] == symbol;
                assert(table[n] == symbol);
                assert forall|i: int| 0 <= i < table.len() implies !(symbol.address < (
                #[trigger] table[i]).address <= address) by {
                    if i < shorter.len() {
                        assert(table[i] == shorter[i]);
                    }
                }
            }
        }
    }
}

/// A symbol of unknown size is found at its own address.
pub proof fn unsized_symbol_is_found(table: Seq<SymbolView>, i: int)
    requires
        ascending(table),
        0 <= i < table.len(),
        table[i].size is None,
    ensures
        symbol_at(table, table[i].address) == Some(table[i]),
{
    assert forall|j: int| 0 <= j < i + 1 implies (#[trigger] table[j]).address
        <= table[i].address by {
        if j < i {
            assert(table[j].address < table[i].address);
        }
    }
    lemma_last_at_or_below(table, table[i].address, i + 1);
}

/// A symbol of one table for some symbols is in every table for them.
proof fn lemma_table_entry(
    a: Seq<SymbolView>,
    b: Seq<SymbolView>,
    symbols: Seq<SymbolView>,
    i: int,
)
    requires
        is_table_of(a, symbols),
        is_table_of(b, symbols),
        0 <= i < a.len(),
    ensures
        b.contains(a[i]),
{
    assert(symbols.contains(a[i]));
    let k = choose|k: int| 0 <= k < symbols.len() && symbols[k] == a[i];
    assert(has_address(b, symbols[k].address));
    let j = choose|j: int| 0 <= j < b.len() && (#[trigger] b[j]).address == a[i].address;
    assert(symbols.contains(b[j]));
    let l = choose|l: int| 0 <= l < symbols.len() && symbols[l] == b[j];
    assert(symbol_le(a[i], symbols[l]));
    assert(symbol_le(b[j], symbols[k]));
    symbol_le_antisymmetric(a[i], b[j]);
}

/// The symbols decide what their table is.
pub proof fn table_is_determined(
    a: Seq<SymbolView>,
    b: Seq<SymbolView>,
    symbols: Seq<SymbolView>,
)
    requires
        is_table_of(a, symbols),
        is_table_of(b, symbols),
    ensures
        a == b,
{
    assert forall|i: int| 0 <= i < a.len() implies b.contains(#[trigger] a[i]) by {
        lemma_table_entry(a, b, symbols, i);
    }
    assert forall|i: int| 0 <= i < b.len() implies a.contains(#[trigger] b[i]) by {
        lemma_table_entry(b, a, symbols, i);
    }
    lemma_ascending_determined(a, b);
}

/// Two tables with ascending addresses and the same symbols are the same.
proof fn lemma_ascending_determined(a: Seq<SymbolView>, b: Seq<SymbolView>)
    requires
        ascending(a),
        ascending(b),
        forall|i: int| 0 <= i < a.len() ==> b.contains(#[trigger] a[i]),
        forall|i: int| 0 <= i < b.len() ==> a.contains(#[trigger] b[i]),
    ensures
        a == b,
    decreases a.len(),
{
    if a.len() == 0 || b.len() == 0 {
        if a.len() > 0 {
            assert(b.contains(a[0]));
        }
        if b.len() > 0 {
            assert(a.contains(b[0]));
        }
        assert(a =~= b);
    } else {
        let x = a[a.len() - 1];
        let y = b[b.len() - 1];
        assert(b.contains(x));
        assert(a.contains(y));
        let j = choose|j: int| 0 <= j < b.len() && b[j] == x;
        let i = choose|i: int| 0 <= i < a.len() && a[i] == y;
        if j < b.len() - 1 {
            assert(b[j].address < y.address);
        }
        if i < a.len() - 1 {
            assert(a[i].address < x.address);
        }
        assert(x == y);
        let a_rest = a.drop_last();
        let b_rest = b.drop_last();
        assert forall|k: int| 0 <= k < a_rest.len() implies b_rest.contains(
            #[trigger] a_rest[k],
        ) by {
            assert(b.contains(a[k]));
            let l = choose|l: int| 0 <= l < b.len() && b[l] == a[k];
            assert(a[k].address < x.address);
            assert(b_rest[l] == a_rest[k]);
        }
        assert forall|k: int| 0 <= k < b_rest.len() implies a_rest.contains(
            #[trigger] b_rest[k],
        ) by {
            assert(a.contains(b[k]));
            let l = choose|l: int| 0 <= l < a.len() && a[l] == b[k];
            assert(b[k].address < y.address);
            assert(a_rest[l] == b_rest[k]);
        }
        lemma_ascending_determined(a_rest, b_rest);
        assert(a =~= a_rest.push(x));
        assert(b =~= b_rest.push(y));
    }
}

/// The symbol that an address lies in is the last one that starts at or before it, and it reaches
/// past the address: its size is not known, or the distance from its start is below its size.
/// There is none only if there is no such symbol.
pub proof fn lookup_finds_the_symbol_around_an_address(
    table: Seq<SymbolView>,
    address: u32,
    i: int,
)
    requires
        forall|j: int, k: int|
            0 <= j < k < table.len() ==> (#[trigger] table[j]).address < (
            #[trigger] table[k]).address,
        0 <= i < table.len(),
    ensures
        symbol_at(table, address) == Some(table[i]) <==> {
            &&& table[i].address <= address
            &&& i + 1 < table.len() ==> address < table[i + 1].address
            &&& table[i].size matches Some(size) ==> address - table[i].address < size
        },
        symbol_at(table, address) matches Some(symbol) ==> table.contains(symbol),
{
    assert(ascending(table));
    symbol_at_is_nearest(table, address);
    if table[i].address <= address && (i + 1 < table.len() ==> address < table[i + 1].address) {
        assert forall|j: int| 0 <= j < i + 1 implies (#[trigger] table[j]).address <= address by {
            if j < i {
                assert(table[j].address < table[i].address);
            }
        }
        assert forall|j: int| i + 1 <= j < table.len() implies (#[trigger] table[j]).address
            > address by {
            if j > i + 1 {
                assert(table[i + 1].address < table[j].address);
            }
        }
        lemma_last_at_or_below(table, address, i + 1);
    }
    if symbol_at(table, address) == Some(table[i]) {
        assert(!(table[i].address < table[i + 1].address <= address) || i + 1 >= table.len()) by {
            if i + 1 < table.len() {
                assert(table[i].address < table[i + 1].address);
            }
        }
    }
}

/// Before the first symbol there is none.
pub proof fn no_symbol_before_the_first(table: Seq<SymbolView>, address: u32)
    requires
        forall|i: int| 0 <= i < table.len() ==> (#[trigger] table[i]).address > address,
    ensures
        symbol_at(table, address) is None,
    decreases table.len(),
{
    if table.len() > 0 {
        assert(table[table.len() - 1].address > address);
        no_symbol_before_the_first(table.drop_last(), address);
    }
}

/// A table holds one symbol for each address that some symbol has, in ascending order. Of several
/// symbols at one address it is one of unknown size if there is one, else one of the least size,
/// and of those the one with the name that comes first.
pub proof fn table_holds_the_first_symbol_of_each_address(
    table: Seq<SymbolView>,
    symbols: Seq<SymbolView>,
    k: int,
)
    requires
        is_table_of(table, symbols),
        0 <= k < symbols.len(),
    ensures
        forall|i: int, j: int|
            0 <= i < j < table.len() ==> (#[trigger] table[i]).address < (
            #[trigger] table[j]).address,
        forall|i: int| 0 <= i < table.len() ==> symbols.contains(#[trigger] table[i]),
        exists|i: int|
            {
                &&& 0 <= i < table.len()
                &&& (#[trigger] table[i]).address == symbols[k].address
                &&& table[i].size is Some ==> symbols[k].size is Some
                &&& (table[i].size is Some && symbols[k].size is Some) ==> table[i].size->0
                    <= symbols[k].size->0
                &&& table[i].size == symbols[k].size ==> text_le(table[i].name, symbols[k].name)
            },
{
    assert(has_address(table, symbols[k].address));
    let i = choose|i: int|
        0 <= i < table.len() && (#[trigger] table[i]).address == symbols[k].address;
    assert(symbol_le(table[i], symbols[k]));
}

/// The view of a symbol holds its fields.
pub proof fn symbol_is_viewed_field_by_field(symbol: Symbol, symbols: Seq<Symbol>)
    ensures
        symbol@.address == symbol.address,
        symbol@.size == symbol.size,
        symbol@.name == symbol.name@,
        symbols_view(symbols).len() == symbols.len(),
        forall|i: int|
            0 <= i < symbols.len() ==> symbols_view(symbols)[i] == #[trigger] symbols[i]@,
{
}

} // verus!
