//! Append-only tables in which no row occurs twice.

use std::collections::HashMap;
use vstd::prelude::*;

verus! {

/// `rows` with `row` in it: at its end, unless it is there already.
pub open spec fn interned<T>(rows: Seq<T>, row: T) -> Seq<T> {
    if rows.contains(row) {
        rows
    } else {
        rows.push(row)
    }
}

/// `longer` starts with all rows of `rows`, so an index into `rows` means the same in both.
pub open spec fn extends<T>(longer: Seq<T>, rows: Seq<T>) -> bool {
    &&& rows.len() <= longer.len()
    &&& forall|i: int| 0 <= i < rows.len() ==> longer[i] == #[trigger] rows[i]
}

/// Interning a row keeps the indexes of all others, gives the row an index of its own, and
/// interning it again changes nothing.
pub proof fn interned_is_stable<T>(rows: Seq<T>, row: T)
    requires
        rows.no_duplicates(),
    ensures
        extends(interned(rows, row), rows),
        interned(rows, row).no_duplicates(),
        interned(rows, row).contains(row),
        interned(interned(rows, row), row) == interned(rows, row),
{
    if !rows.contains(row) {
        assert(interned(rows, row)[rows.len() as int] == row);
    }
}

/// In a table without repeated rows, the index of a row is the only place where it stands.
pub proof fn index_is_unique<T>(rows: Seq<T>, row: T, i: int)
    requires
        rows.no_duplicates(),
        0 <= i < rows.len(),
        rows[i] == row,
    ensures
        rows.index_of(row) == i,
{
    let j = rows.index_of(row);
    assert(rows.contains(row));
    assert(0 <= j < rows.len() && rows[j] == row);
}

/// Rows that can be told apart by one integer.
pub trait Packed: Copy + Sized {
    /// The row is one of those that the integer tells apart.
    spec fn packable(self) -> bool;

    spec fn packed(self) -> u128;

    proof fn packed_injective(a: Self, b: Self)
        requires
            a.packable(),
            b.packable(),
            a.packed() == b.packed(),
        ensures
            a == b,
    ;

    fn pack(&self) -> (key: u128)
        requires
            self.packable(),
        ensures
            key == self.packed(),
    ;
}

/// A table of rows without repetition, with a fast way to find a row.
#[derive(Debug)]
pub struct Interner<K> {
    rows: Vec<K>,
    positions: HashMap<u128, usize>,
}

impl<K> View for Interner<K> {
    type V = Seq<K>;

    closed spec fn view(&self) -> Seq<K> {
        self.rows@
    }
}

impl<K: Packed> Interner<K> {
    pub closed spec fn wf(self) -> bool {
        &&& forall|i: int| 0 <= i < self.rows@.len() ==> (#[trigger] self.rows@[i]).packable()
        &&& forall|i: int|
            0 <= i < self.rows@.len() ==> #[trigger] self.positions@.contains_key(
                self.rows@[i].packed(),
            ) && self.positions@[self.rows@[i].packed()] == i
        &&& forall|key: u128| #[trigger]
            self.positions@.contains_key(key) ==> self.positions@[key] < self.rows@.len()
                && self.rows@[self.positions@[key] as int].packed() == key
    }

    /// No row of the table occurs twice.
    pub proof fn lemma_no_duplicates(self)
        requires
            self.wf(),
        ensures
            self@.no_duplicates(),
    {
        assert forall|i: int, j: int|
            0 <= i < self@.len() && 0 <= j < self@.len() && i != j implies self@[i] != self@[j] by {
            assert(self.positions@.contains_key(self.rows@[i].packed()));
            assert(self.positions@.contains_key(self.rows@[j].packed()));
        }
    }

    /// The rows are in memory, so their indexes are machine integers.
    pub proof fn lemma_fits(&self)
        ensures
            self@.len() <= usize::MAX,
    {
        assert(self@.len() == self.rows.len());
    }

    pub fn new() -> (table: Self)
        ensures
            table.wf(),
            table@ == Seq::<K>::empty(),
    {
        Interner { rows: Vec::new(), positions: HashMap::new() }
    }

    /// The rows of the table.
    pub fn rows(&self) -> (rows: &Vec<K>)
        ensures
            rows@ == self@,
    {
        &self.rows
    }

    /// The index of a row, if it is in the table.
    pub fn find(&self, row: K) -> (index: Option<usize>)
        requires
            self.wf(),
            row.packable(),
        ensures
            match index {
                Some(index) => index < self@.len() && self@[index as int] == row,
                None => !self@.contains(row),
            },
    {
        match self.positions.get(&row.pack()) {
            Some(index) => {
                let index: usize = *index;
                proof {
                    assert(self.positions@.contains_key(row.packed()));
                    K::packed_injective(self.rows@[index as int], row);
                }
                Some(index)
            },
            None => {
                proof {
                    if self@.contains(row) {
                        let i = choose|i: int| 0 <= i < self@.len() && self@[i] == row;
                        assert(self.positions@.contains_key(self.rows@[i].packed()));
                    }
                }
                None
            },
        }
    }

    /// Add a row that is not in the table yet.
    pub fn push(&mut self, row: K) -> (index: usize)
        requires
            old(self).wf(),
            row.packable(),
            !old(self)@.contains(row),
        ensures
            final(self).wf(),
            final(self)@ == old(self)@.push(row),
            index == old(self)@.len(),
            final(self)@.len() <= usize::MAX,
    {
        let index: usize = self.rows.len();
        let key: u128 = row.pack();
        proof {
            if self.positions@.contains_key(key) {
                let i = self.positions@[key] as int;
                K::packed_injective(self.rows@[i], row);
                assert(self@[i] == row);
            }
        }
        self.rows.push(row);
        self.positions.insert(key, index);
        assert(self@.len() == self.rows.len());
        proof {
            assert forall|i: int| 0 <= i < self.rows@.len() implies #[trigger]
                self.positions@.contains_key(self.rows@[i].packed())
                && self.positions@[self.rows@[i].packed()] == i by {
                if i < index {
                    assert(old(self).positions@.contains_key(old(self).rows@[i].packed()));
                }
            }
            assert forall|k: u128| #[trigger] self.positions@.contains_key(k) implies
                self.positions@[k] < self.rows@.len()
                && self.rows@[self.positions@[k] as int].packed() == k by {
                if k != key {
                    assert(old(self).positions@.contains_key(k));
                }
            }
        }
        index
    }

    /// The index of a row, which is added if it is not in the table.
    pub fn index_for(&mut self, row: K) -> (index: usize)
        requires
            old(self).wf(),
            row.packable(),
        ensures
            final(self).wf(),
            final(self)@ == interned(old(self)@, row),
            index < final(self)@.len() <= usize::MAX,
            final(self)@[index as int] == row,
    {
        match self.find(row) {
            Some(index) => {
                assert(self@.len() == self.rows.len());
                index
            },
            None => self.push(row),
        }
    }
}

/// A row that is there adds nothing, and one that is not there is added alone, at the end.
pub proof fn rows_are_added_one_by_one<T>(rows: Seq<T>, row: T)
    ensures
        (exists|i: int| 0 <= i < rows.len() && rows[i] == row) ==> interned(rows, row) == rows,
        (forall|i: int| 0 <= i < rows.len() ==> rows[i] != row) ==> {
            &&& interned(rows, row).len() == rows.len() + 1
            &&& interned(rows, row).last() == row
            &&& forall|i: int| 0 <= i < rows.len() ==> interned(rows, row)[i] == #[trigger] rows[i]
        },
{
    if exists|i: int| 0 <= i < rows.len() && rows[i] == row {
        assert(rows.contains(row));
    }
    if forall|i: int| 0 <= i < rows.len() ==> rows[i] != row {
        assert(!rows.contains(row));
    }
}

/// Rows that are continued stay where they are.
pub proof fn continued_rows_stay<T>(longer: Seq<T>, rows: Seq<T>)
    ensures
        extends(longer, rows) <==> rows.len() <= longer.len() && longer.take(rows.len() as int)
            == rows,
{
    if extends(longer, rows) {
        assert(longer.take(rows.len() as int) =~= rows);
    }
    if rows.len() <= longer.len() && longer.take(rows.len() as int) == rows {
        assert forall|i: int| 0 <= i < rows.len() implies longer[i] == #[trigger] rows[i] by {
            assert(longer.take(rows.len() as int)[i] == longer[i]);
        }
    }
}

} // verus!
