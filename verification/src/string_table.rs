//! Tables of strings without repetition.

use crate::intern::interned;
use crate::text::is_same_text;
use std::collections::HashMap;
use vstd::prelude::*;
use vstd::utf8::encode_utf8;

verus! {

/// The hash of a byte string: every byte is mixed into the hash of those before it.
pub open spec fn hash_of(bytes: Seq<u8>) -> u64
    decreases bytes.len(),
{
    if bytes.len() == 0 {
        0xcbf2_9ce4_8422_2325
    } else {
        (hash_of(bytes.drop_last()) ^ (bytes.last() as u64)).wrapping_mul(0x0000_0100_0000_01b3)
    }
}

fn hash(s: &str) -> (h: u64)
    ensures
        h == hash_of(encode_utf8(s@)),
{
    let bytes: &[u8] = s.as_bytes();
    let mut h: u64 = 0xcbf2_9ce4_8422_2325;
    let mut i: usize = 0;
    while i < bytes.len()
        invariant
            i <= bytes@.len(),
            h == hash_of(bytes@.take(i as int)),
        decreases bytes@.len() - i,
    {
        assert(bytes@.take(i + 1).drop_last() =~= bytes@.take(i as int));
        h = (h ^ (bytes[i] as u64)).wrapping_mul(0x0000_0100_0000_01b3);
        i = i + 1;
    }
    assert(bytes@.take(i as int) =~= bytes@);
    h
}

/// A table of strings in which no string occurs twice.
///
/// The strings of one hash form a chain: `last` leads to the last of them, and `previous` from
/// each to the one before it.
#[derive(Debug)]
pub struct StringTable {
    strings: Vec<String>,
    previous: Vec<Option<usize>>,
    last: HashMap<u64, usize>,
}

impl View for StringTable {
    type V = Seq<Seq<char>>;

    closed spec fn view(&self) -> Seq<Seq<char>> {
        self.strings@.map_values(|s: String| s@)
    }
}

impl StringTable {
    /// The hash of the string at index `i`.
    spec fn hash_at(self, i: int) -> u64 {
        hash_of(encode_utf8(self@[i]))
    }

    /// `link` leads to the last string of the hash `h` before index `end`.
    spec fn leads_to_last(self, link: Option<usize>, h: u64, end: int) -> bool {
        match link {
            Some(i) => {
                &&& i < end
                &&& self.hash_at(i as int) == h
                &&& forall|j: int| i < j < end ==> #[trigger] self.hash_at(j) != h
            },
            None => forall|j: int| 0 <= j < end ==> #[trigger] self.hash_at(j) != h,
        }
    }

    /// The chain of the hash `h` starts here.
    spec fn chain(self, h: u64) -> Option<usize> {
        if self.last@.contains_key(h) {
            Some(self.last@[h])
        } else {
            None
        }
    }

    pub closed spec fn wf(self) -> bool {
        &&& self@.no_duplicates()
        &&& self.previous@.len() == self@.len()
        &&& forall|i: int|
            0 <= i < self@.len() ==> self.leads_to_last(
                #[trigger] self.previous@[i],
                self.hash_at(i),
                i,
            )
        &&& forall|h: u64|
            self.leads_to_last(#[trigger] self.chain(h), h, self@.len() as int)
    }

    /// No string of the table occurs twice.
    pub proof fn lemma_no_duplicates(self)
        requires
            self.wf(),
        ensures
            self@.no_duplicates(),
    {
    }

    /// The strings are in memory, so their indexes are machine integers.
    pub proof fn lemma_fits(&self)
        ensures
            self@.len() <= usize::MAX,
    {
        assert(self@.len() == self.strings.len());
    }

    /// The index of a string, if it is in the table.
    fn find(&self, s: &str) -> (index: Option<usize>)
        requires
            self.wf(),
        ensures
            match index {
                Some(index) => index < self@.len() && self@[index as int] == s@,
                None => !self@.contains(s@),
            },
    {
        let h: u64 = hash(s);
        let mut link: Option<usize> = match self.last.get(&h) {
            Some(index) => Some(*index),
            None => None,
        };
        assert(link == self.chain(h));
        let ghost mut end: int = self@.len() as int;
        loop
            invariant
                self.wf(),
                h == hash_of(encode_utf8(s@)),
                0 <= end <= self@.len(),
                self.leads_to_last(link, h, end),
                forall|j: int| end <= j < self@.len() ==> self@[j] != s@,
            ensures
                !self@.contains(s@),
            decreases end,
        {
            match link {
                Some(index) => {
                    if is_same_text(self.strings[index].as_str(), s) {
                        return Some(index);
                    }
                    proof {
                        assert forall|j: int| index <= j < self@.len() implies self@[j] != s@ by {
                            if index < j < end {
                                assert(self.hash_at(j) != h);
                            }
                        }
                        end = index as int;
                    }
                    link = self.previous[index];
                },
                None => {
                    proof {
                        if self@.contains(s@) {
                            let j = choose|j: int| 0 <= j < self@.len() && self@[j] == s@;
                            assert(self.hash_at(j) == h);
                        }
                    }
                    break;
                },
            }
        }
        None
    }

    pub fn new() -> (table: Self)
        ensures
            table.wf(),
            table@ == Seq::<Seq<char>>::empty(),
    {
        let table: StringTable = StringTable {
            strings: Vec::new(),
            previous: Vec::new(),
            last: HashMap::new(),
        };
        assert(table@ =~= Seq::<Seq<char>>::empty());
        table
    }

    pub fn len(&self) -> (len: usize)
        ensures
            len == self@.len(),
    {
        self.strings.len()
    }

    /// The string at the given index.
    pub fn get(&self, index: usize) -> (s: &str)
        requires
            index < self@.len(),
        ensures
            s@ == self@[index as int],
    {
        self.strings[index].as_str()
    }

    /// The index of a string, which is added if it is not in the table.
    pub fn index_for_string(&mut self, s: &str) -> (index: usize)
        requires
            old(self).wf(),
        ensures
            final(self).wf(),
            final(self)@ == interned(old(self)@, s@),
            index < final(self)@.len(),
            final(self)@[index as int] == s@,
    {
        match self.find(s) {
            Some(index) => index,
            None => {
                let index: usize = self.strings.len();
                let h: u64 = hash(s);
                let link: Option<usize> = match self.last.get(&h) {
                    Some(last) => Some(*last),
                    None => None,
                };
                assert(link == self.chain(h));
                self.strings.push(s.to_string());
                self.previous.push(link);
                self.last.insert(h, index);
                proof {
                    let before = *old(self);
                    assert(self@ =~= before@.push(s@));
                    assert forall|i: int| 0 <= i < before@.len() implies #[trigger] self.hash_at(i)
                        == before.hash_at(i) by {}
                    assert forall|i: int| 0 <= i < self@.len() implies self.leads_to_last(
                        #[trigger] self.previous@[i],
                        self.hash_at(i),
                        i,
                    ) by {
                        if i < index {
                            assert(before.leads_to_last(before.previous@[i], before.hash_at(i), i));
                        } else {
                            assert(before.leads_to_last(link, h, index as int));
                        }
                    }
                    assert forall|k: u64| self.leads_to_last(
                        #[trigger] self.chain(k),
                        k,
                        self@.len() as int,
                    ) by {
                        assert(before.leads_to_last(before.chain(k), k, index as int));
                        if k != h {
                            assert(self.chain(k) == before.chain(k));
                        }
                    }
                }
                index
            },
        }
    }
}

} // verus!
