//! The notes in an ELF section or segment, and the build ID among them.

use crate::text::is_same_bytes;
use object::elf::NoteHeader64;
use object::read::elf::NoteHeader;
use vstd::arithmetic::div_mod::{
    lemma_fundamental_div_mod, lemma_fundamental_div_mod_converse, lemma_mod_multiples_basic,
};
use vstd::arithmetic::power2::{
    lemma2_to64, lemma2_to64_rest, lemma_pow2_pos, lemma_pow2_strictly_increases, pow2,
};
use vstd::bits::{lemma_usize_low_bits_mask_is_mod, low_bits_mask};
use vstd::prelude::*;

verus! {

/// The order of the bytes of an integer.
#[derive(Debug, Clone, Copy, PartialEq, Eq, Structural)]
pub enum Endianness {
    Little,
    Big,
}

/// The size of a note's header: three integers of four bytes.
pub const NOTE_HEADER_SIZE: usize = 12;

/// The note type of a build ID, in notes that are named [`gnu_name`].
pub const NT_GNU_BUILD_ID: u32 = 3;

/// The name of the notes that the GNU toolchain writes: `GNU`.
pub open spec fn gnu_name() -> Seq<u8> {
    seq![0x47u8, 0x4eu8, 0x55u8]
}

/// The integer that the four bytes from `at` on stand for.
pub open spec fn word_at(data: Seq<u8>, at: int, endian: Endianness) -> int {
    match endian {
        Endianness::Little => data[at] + 0x100 * data[at + 1] + 0x1_0000 * data[at + 2]
            + 0x100_0000 * data[at + 3],
        Endianness::Big => 0x100_0000 * data[at] + 0x1_0000 * data[at + 1] + 0x100 * data[at + 2]
            + data[at + 3],
    }
}

/// The least multiple of `size` that is not below `offset`.
pub open spec fn align_up(offset: int, size: int) -> int {
    (offset + size - 1) / size * size
}

/// A note: its header, its name with any terminator, and its descriptor.
pub struct NoteView {
    pub header: Seq<u8>,
    pub name: Seq<u8>,
    pub desc: Seq<u8>,
}

impl NoteView {
    /// The type of the note, read in the given byte order.
    pub open spec fn n_type(self, endian: Endianness) -> int {
        word_at(self.header, 8, endian)
    }

    /// The name without the null terminator, where it has one.
    pub open spec fn bare_name(self) -> Seq<u8> {
        if self.name.len() > 0 && self.name.last() == 0 {
            self.name.drop_last()
        } else {
            self.name
        }
    }

    /// The descriptor of this note is a build ID.
    pub open spec fn is_build_id(self, endian: Endianness) -> bool {
        self.bare_name() == gnu_name() && self.n_type(endian) == NT_GNU_BUILD_ID
    }
}

/// The note that `data` starts with, and what follows it.
///
/// The header gives the length of the name and that of the descriptor. The name follows the
/// header at once, the descriptor and the next note are aligned. There is no note where a part of
/// it would lie beyond the end of the data.
pub open spec fn first_note(data: Seq<u8>, align: int, endian: Endianness) -> Option<
    (NoteView, Seq<u8>),
> {
    let name_end = NOTE_HEADER_SIZE + word_at(data, 0, endian);
    let desc_start = align_up(name_end, align);
    let desc_end = desc_start + word_at(data, 4, endian);
    let next = align_up(desc_end, align);
    if data.len() < NOTE_HEADER_SIZE || data.len() < name_end || data.len() < desc_end {
        None
    } else {
        Some(
            (
                NoteView {
                    header: data.take(NOTE_HEADER_SIZE as int),
                    name: data.subrange(NOTE_HEADER_SIZE as int, name_end),
                    desc: data.subrange(desc_start, desc_end),
                },
                if next <= data.len() {
                    data.skip(next)
                } else {
                    Seq::empty()
                },
            ),
        )
    }
}

/// The least multiple of `size` that is not below `offset` is a multiple of `size`, and less than
/// `size` above `offset`. To round it up once more changes nothing.
pub proof fn lemma_align_up(offset: int, size: int)
    requires
        0 <= offset,
        0 < size,
    ensures
        offset <= align_up(offset, size) < offset + size,
        align_up(offset, size) % size == 0,
        align_up(align_up(offset, size), size) == align_up(offset, size),
{
    let end = offset + size - 1;
    let quotient = end / size;
    let aligned = align_up(offset, size);
    lemma_fundamental_div_mod(end, size);
    assert(quotient * size == size * quotient) by (nonlinear_arith);
    assert(aligned == end - end % size);
    lemma_mod_multiples_basic(quotient, size);
    lemma_fundamental_div_mod_converse(aligned + size - 1, size, quotient, size - 1);
}

/// `n` is a power of two.
pub open spec fn is_power_of_two(n: int) -> bool {
    exists|exponent: nat| n == #[trigger] pow2(exponent)
}

/// What follows a note is shorter than the data by the header at least.
pub proof fn lemma_first_note_shortens(data: Seq<u8>, align: int, endian: Endianness)
    requires
        align == 4 || align == 8,
    ensures
        first_note(data, align, endian) matches Some((note, rest)) ==> rest.len()
            + NOTE_HEADER_SIZE <= data.len(),
{
    let name_end = NOTE_HEADER_SIZE + word_at(data, 0, endian);
    let desc_start = align_up(name_end, align);
    lemma_align_up(name_end, align);
    lemma_align_up(desc_start + word_at(data, 4, endian), align);
}

/// All notes from the start of `data` to the first place where there is none.
pub open spec fn notes(data: Seq<u8>, align: int, endian: Endianness) -> Seq<NoteView>
    decreases data.len(),
    when align == 4 || align == 8
{
    proof {
        lemma_first_note_shortens(data, align, endian);
    }
    match first_note(data, align, endian) {
        Some((note, rest)) => seq![note] + notes(rest, align, endian),
        None => Seq::empty(),
    }
}

/// The descriptor of the first build ID note.
pub open spec fn first_build_id(notes: Seq<NoteView>, endian: Endianness) -> Option<Seq<u8>>
    decreases notes.len(),
{
    if notes.len() == 0 {
        None
    } else if notes[0].is_build_id(endian) {
        Some(notes[0].desc)
    } else {
        first_build_id(notes.drop_first(), endian)
    }
}

/// The build ID in the data of a notes section, whose notes are aligned to four bytes.
pub open spec fn build_id(data: Seq<u8>, endian: Endianness) -> Option<Seq<u8>> {
    first_build_id(notes(data, 4, endian), endian)
}

/// Reads a note header with `object`: `Bytes::read_at` for an `elf::NoteHeader64` at offset zero,
/// and `n_namesz`, `n_descsz` and `n_type` of `NoteHeader` on it. There is a header if the data is
/// long enough for one: the header is made of bytes, so it need not be aligned. Its fields are
/// the first three integers of four bytes, in the given byte order.
#[verifier::external_body]
fn read_note_header(data: &[u8], endian: Endianness) -> (fields: Option<(u32, u32, u32)>)
    ensures
        match fields {
            Some((namesz, descsz, n_type)) => {
                &&& data@.len() >= NOTE_HEADER_SIZE
                &&& namesz == word_at(data@, 0, endian)
                &&& descsz == word_at(data@, 4, endian)
                &&& n_type == word_at(data@, 8, endian)
            },
            None => data@.len() < NOTE_HEADER_SIZE,
        },
{
    let endian = match endian {
        Endianness::Little => object::Endianness::Little,
        Endianness::Big => object::Endianness::Big,
    };
    let bytes = object::read::Bytes(data);
    let header = bytes.read_at::<NoteHeader64<object::Endianness>>(0).ok()?;
    Some((header.n_namesz(endian), header.n_descsz(endian), header.n_type(endian)))
}

/// Calls `object::read::Bytes::read_bytes_at`: the `count` bytes from `offset` on, if the data
/// holds that many.
#[verifier::external_body]
fn read_bytes_at<'a>(data: &'a [u8], offset: usize, count: usize) -> (bytes: Option<&'a [u8]>)
    ensures
        match bytes {
            Some(bytes) => {
                &&& offset + count <= data@.len()
                &&& bytes@ == data@.subrange(offset as int, offset + count)
            },
            None => offset + count > data@.len(),
        },
{
    Some(object::read::Bytes(data).read_bytes_at(offset, count).ok()?.0)
}

/// Calls `object::read::Bytes::skip`: the bytes from `offset` on, unless that is beyond the end.
#[verifier::external_body]
fn skip_bytes<'a>(data: &'a [u8], offset: usize) -> (rest: Option<&'a [u8]>)
    ensures
        match rest {
            Some(rest) => offset <= data@.len() && rest@ == data@.skip(offset as int),
            None => offset > data@.len(),
        },
{
    let mut bytes = object::read::Bytes(data);
    bytes.skip(offset).ok()?;
    Some(bytes.0)
}

/// Calls `is_big_endian` of `object::NativeEndian`. The result depends on the machine, so nothing
/// is said of it.
#[verifier::external_body]
fn native_is_big_endian() -> bool {
    object::Endian::is_big_endian(object::NativeEndian)
}

/// The byte order of this machine: big endian if and only if `object` says that it is.
pub fn native_endianness() -> (endian: Endianness)
    ensures
        is_native(endian),
{
    let is_big: bool = native_is_big_endian();
    assert(call_ensures(native_is_big_endian, (), is_big));
    if is_big {
        Endianness::Big
    } else {
        Endianness::Little
    }
}

/// `object` says that this machine has the byte order `endian`.
pub closed spec fn is_native(endian: Endianness) -> bool {
    exists|is_big: bool| #[trigger]
        call_ensures(native_is_big_endian, (), is_big) && endian == endianness_of(is_big)
}

/// The byte order of a machine that is big endian or not.
pub open spec fn endianness_of(is_big: bool) -> Endianness {
    if is_big {
        Endianness::Big
    } else {
        Endianness::Little
    }
}

/// Rounds `offset` up to a multiple of `size`, which is a power of two.
pub fn align(offset: usize, size: usize) -> (r: usize)
    requires
        is_power_of_two(size as int),
        offset + size - 1 <= usize::MAX,
    ensures
        r == align_up(offset as int, size as int),
        r % size == 0,
        offset <= r < offset + size,
{
    proof {
        lemma_power_of_two_fits(size);
        lemma_align_up(offset as int, size as int);
    }
    let end: usize = offset + (size - 1);
    proof {
        let exponent = choose|exponent: nat| size == #[trigger] pow2(exponent);
        let mask: usize = (size - 1) as usize;
        assert(low_bits_mask(exponent) == mask);
        lemma_usize_low_bits_mask_is_mod(end, exponent);
        assert(end & !mask == end - (end & mask)) by (bit_vector);
        lemma_fundamental_div_mod(end as int, size as int);
        assert((end / size) * size == size * (end / size)) by (nonlinear_arith);
    }
    end & !(size - 1)
}

/// A power of two that is a machine integer has an exponent below the number of bits.
proof fn lemma_power_of_two_fits(size: usize)
    requires
        is_power_of_two(size as int),
    ensures
        size > 0,
        forall|exponent: nat| size == #[trigger] pow2(exponent) ==> exponent < usize::BITS,
{
    let witness = choose|exponent: nat| size == #[trigger] pow2(exponent);
    lemma_pow2_pos(witness);
    lemma2_to64();
    assert forall|exponent: nat| size == #[trigger] pow2(exponent) implies exponent
        < usize::BITS by {
        if exponent > usize::BITS {
            lemma_pow2_strictly_increases(usize::BITS as nat, exponent);
        }
        lemma2_to64_rest();
        assert(pow2(usize::BITS as nat) > usize::MAX);
    }
}

/// The alignments of notes are powers of two.
proof fn lemma_note_alignment(size: usize)
    requires
        size == 4 || size == 8,
    ensures
        is_power_of_two(size as int),
{
    lemma2_to64();
    assert(pow2(2) == 4 && pow2(3) == 8);
}

/// An iterator over the notes in an ELF section or segment.
#[derive(Debug)]
pub struct NoteIterator<'data> {
    endian: Endianness,
    align: usize,
    data: &'data [u8],
}

impl<'data> NoteIterator<'data> {
    #[verifier::type_invariant]
    spec fn inv(self) -> bool {
        self.align == 4 || self.align == 8
    }

    /// The byte order of the headers.
    pub closed spec fn endian(self) -> Endianness {
        self.endian
    }

    /// The alignment of the descriptors and of the notes.
    pub closed spec fn align(self) -> int {
        self.align as int
    }

    /// The data that has not been read yet.
    pub closed spec fn data(self) -> Seq<u8> {
        self.data@
    }

    /// Returns `None` if `align` is invalid. An alignment below four is taken as four.
    pub fn new(endian: Endianness, align: u64, data: &'data [u8]) -> (iter: Option<Self>)
        ensures
            match iter {
                Some(iter) => {
                    &&& align <= 4 || align == 8
                    &&& iter.align() == if align == 8 {
                        8int
                    } else {
                        4int
                    }
                    &&& iter.endian() == endian
                    &&& iter.data() == data@
                },
                None => align > 4 && align != 8,
            },
    {
        let align: usize = if align <= 4 {
            4
        } else if align == 8 {
            8
        } else {
            return None;
        };
        Some(NoteIterator { endian, align, data })
    }

    /// Returns the next note.
    pub fn next(&mut self) -> (note: Option<Note<'data>>)
        ensures
            old(self).align() == 4 || old(self).align() == 8,
            final(self).endian() == old(self).endian(),
            final(self).align() == old(self).align(),
            match first_note(old(self).data(), old(self).align(), old(self).endian()) {
                Some((read, rest)) => {
                    &&& note matches Some(note) && note@ == read
                    &&& final(self).data() == rest
                },
                None => note is None && final(self).data() == old(self).data(),
            },
    {
        proof {
            use_type_invariant(&*self);
        }
        let data: &'data [u8] = self.data;
        if data.len() == 0 {
            return None;
        }
        let (namesz, descsz, _): (u32, u32, u32) = match read_note_header(data, self.endian) {
            Some(fields) => fields,
            None => return None,
        };
        let header: &'data [u8] = match read_bytes_at(data, 0, NOTE_HEADER_SIZE) {
            Some(header) => header,
            None => return None,
        };
        assert(header@ =~= data@.take(NOTE_HEADER_SIZE as int));

        // The name has no alignment requirement.
        let name: &'data [u8] = match read_bytes_at(data, NOTE_HEADER_SIZE, namesz as usize) {
            Some(name) => name,
            None => return None,
        };

        // The descriptor must be aligned.
        let name_end: usize = NOTE_HEADER_SIZE + namesz as usize;
        proof {
            lemma_note_alignment(self.align);
            lemma_align_up(name_end as int, self.align as int);
            lemma_align_overflow(name_end, self.align);
        }
        if name_end > usize::MAX - (self.align - 1) {
            return None;
        }
        let desc_start: usize = align(name_end, self.align);
        let desc: &'data [u8] = match read_bytes_at(data, desc_start, descsz as usize) {
            Some(desc) => desc,
            None => return None,
        };

        // The next note (if any) must be aligned.
        let desc_end: usize = desc_start + descsz as usize;
        proof {
            lemma_align_up(desc_end as int, self.align as int);
            lemma_align_overflow(desc_end, self.align);
        }
        let rest: Option<&'data [u8]> = if desc_end > usize::MAX - (self.align - 1) {
            None
        } else {
            skip_bytes(data, align(desc_end, self.align))
        };
        let note: Note<'data> = Note { header, name, desc };
        match rest {
            Some(rest) => {
                self.data = rest;
            },
            None => {
                self.data = &data[data.len()..data.len()];
                assert(self.data@ =~= Seq::empty());
            },
        }
        Some(note)
    }
}

/// An offset that cannot be aligned without overflow lies, aligned, beyond all addresses.
proof fn lemma_align_overflow(offset: usize, size: usize)
    requires
        size == 4 || size == 8,
    ensures
        offset > usize::MAX - (size - 1) ==> align_up(offset as int, size as int) > usize::MAX,
{
    assert(usize::MAX % 4 == 3 && usize::MAX % 8 == 7) by {
        assert(usize::MAX == 0xffff_ffff || usize::MAX == 0xffff_ffff_ffff_ffff);
    }
    lemma_align_up(offset as int, size as int);
}

/// A parsed note.
#[derive(Debug)]
pub struct Note<'data> {
    header: &'data [u8],
    name: &'data [u8],
    desc: &'data [u8],
}

impl<'data> View for Note<'data> {
    type V = NoteView;

    closed spec fn view(&self) -> NoteView {
        NoteView { header: self.header@, name: self.name@, desc: self.desc@ }
    }
}

impl<'data> Note<'data> {
    #[verifier::type_invariant]
    spec fn inv(self) -> bool {
        self.header@.len() == NOTE_HEADER_SIZE
    }

    /// Return the `n_type` field of the note's header.
    ///
    /// The meaning of this field is determined by `name`.
    pub fn n_type(&self, endian: Endianness) -> (n_type: u32)
        ensures
            n_type == self@.n_type(endian),
    {
        proof {
            use_type_invariant(self);
        }
        match read_note_header(self.header, endian) {
            Some((_, _, n_type)) => n_type,
            None => 0,
        }
    }

    /// Return the bytes for the name field following the header, excluding any null terminator.
    ///
    /// This field is usually a string including a null terminator (but it is not required to
    /// be). The length of this field (including any null terminator) is given by `n_namesz`.
    pub fn name(&self) -> (name: &'data [u8])
        ensures
            name@ == self@.bare_name(),
    {
        let len: usize = self.name.len();
        if len > 0 && self.name[len - 1] == 0 {
            let name: &'data [u8] = &self.name[0..len - 1];
            assert(name@ =~= self.name@.drop_last());
            return name;
        }
        self.name
    }

    /// Return the bytes for the desc field following the header.
    ///
    /// The length of this field is given by `n_descsz`. The meaning of this field is determined
    /// by `name` and `n_type`.
    pub fn desc(&self) -> (desc: &'data [u8])
        ensures
            desc@ == self@.desc,
    {
        self.desc
    }
}

/// The bytes of a result that may be missing.
pub open spec fn optional_bytes(bytes: Option<&[u8]>) -> Option<Seq<u8>> {
    match bytes {
        Some(bytes) => Some(bytes@),
        None => None,
    }
}

/// Find the build ID in the data of a notes section of the given byte order.
pub fn find_build_id<'a>(section_data: &'a [u8], endian: Endianness) -> (id: Option<&'a [u8]>)
    ensures
        optional_bytes(id) == build_id(section_data@, endian),
{
    let mut note_iter: NoteIterator<'a> = match NoteIterator::new(endian, 4, section_data) {
        Some(iter) => iter,
        None => return None,
    };
    let gnu: [u8; 3] = [0x47, 0x4e, 0x55];
    assert(gnu@ =~= gnu_name());
    loop
        invariant
            gnu@ == gnu_name(),
            note_iter.align() == 4,
            note_iter.endian() == endian,
            first_build_id(notes(note_iter.data(), 4, endian), endian) == build_id(
                section_data@,
                endian,
            ),
        ensures
            build_id(section_data@, endian) is None,
        decreases note_iter.data().len(),
    {
        let ghost before = note_iter.data();
        proof {
            lemma_first_note_shortens(before, 4, endian);
        }
        match note_iter.next() {
            Some(note) => {
                proof {
                    let rest = notes(note_iter.data(), 4, endian);
                    assert(notes(before, 4, endian).drop_first() =~= rest);
                }
                if is_same_bytes(note.name(), &gnu) && note.n_type(endian) == NT_GNU_BUILD_ID {
                    return Some(note.desc());
                }
            },
            None => {
                break;
            },
        }
    }
    None
}

/// Find the build ID in the data of a notes section that was written on this machine, so in its
/// own byte order.
pub fn build_id_from_notes_section_data(section_data: &[u8]) -> (id: Option<&[u8]>)
    ensures
        exists|endian: Endianness| #[trigger]
            call_ensures(native_endianness, (), endian) && optional_bytes(id) == build_id(
                section_data@,
                endian,
            ),
{
    let endian: Endianness = native_endianness();
    assert(call_ensures(native_endianness, (), endian));
    find_build_id(section_data, endian)
}

/// `part` stands somewhere in `data`.
pub open spec fn is_part_of(part: Seq<u8>, data: Seq<u8>) -> bool {
    exists|at: int|
        0 <= at && at + part.len() <= data.len() && #[trigger] data.subrange(at, at + part.len())
            == part
}

/// Every note takes its header's size of the data at least, and its name and its descriptor are
/// parts of the data.
pub proof fn notes_are_parts_of_the_data(data: Seq<u8>, align: int, endian: Endianness)
    requires
        align == 4 || align == 8,
    ensures
        NOTE_HEADER_SIZE * notes(data, align, endian).len() <= data.len(),
        forall|i: int|
            0 <= i < notes(data, align, endian).len() ==> {
                &&& is_part_of((#[trigger] notes(data, align, endian)[i]).name, data)
                &&& is_part_of(notes(data, align, endian)[i].desc, data)
            },
    decreases data.len(),
{
    lemma_first_note_shortens(data, align, endian);
    if let Some((note, rest)) = first_note(data, align, endian) {
        let all = notes(data, align, endian);
        let others = notes(rest, align, endian);
        notes_are_parts_of_the_data(rest, align, endian);
        assert(all =~= seq![note] + others);
        let name_end = NOTE_HEADER_SIZE + word_at(data, 0, endian);
        let desc_start = align_up(name_end, align);
        let desc_end = desc_start + word_at(data, 4, endian);
        let next = align_up(desc_end, align);
        lemma_align_up(name_end, align);
        lemma_align_up(desc_end, align);
        assert(data.subrange(NOTE_HEADER_SIZE as int, NOTE_HEADER_SIZE + note.name.len())
            == note.name);
        assert(data.subrange(desc_start, desc_start + note.desc.len()) == note.desc);
        assert forall|i: int| 0 <= i < all.len() implies {
            &&& is_part_of((#[trigger] all[i]).name, data)
            &&& is_part_of(all[i].desc, data)
        } by {
            if i > 0 {
                assert(all[i] == others[i - 1]);
                let skipped = data.len() - rest.len();
                assert(rest =~= data.skip(skipped));
                lemma_part_of_rest(others[i - 1].name, data, skipped);
                lemma_part_of_rest(others[i - 1].desc, data, skipped);
            }
        }
    }
}

/// A part of the rest of some data is a part of the data.
proof fn lemma_part_of_rest(part: Seq<u8>, data: Seq<u8>, skipped: int)
    requires
        0 <= skipped <= data.len(),
        is_part_of(part, data.skip(skipped)),
    ensures
        is_part_of(part, data),
{
    let rest = data.skip(skipped);
    let at = choose|at: int|
        0 <= at && at + part.len() <= rest.len() && #[trigger] rest.subrange(at, at + part.len())
            == part;
    assert(data.subrange(skipped + at, skipped + at + part.len()) =~= part);
}

/// The build ID is a part of the data of the section.
pub proof fn build_id_is_part_of_the_data(data: Seq<u8>, endian: Endianness)
    ensures
        build_id(data, endian) matches Some(id) ==> is_part_of(id, data),
{
    notes_are_parts_of_the_data(data, 4, endian);
    lemma_first_build_id(notes(data, 4, endian), endian);
}

/// A build ID is the descriptor of the first note that has the name and the type of one.
proof fn lemma_first_build_id(all: Seq<NoteView>, endian: Endianness)
    ensures
        match first_build_id(all, endian) {
            Some(id) => exists|i: int|
                0 <= i < all.len() && (#[trigger] all[i]).is_build_id(endian) && all[i].desc == id,
            None => forall|i: int| 0 <= i < all.len() ==> !(#[trigger] all[i]).is_build_id(endian),
        },
    decreases all.len(),
{
    if all.len() > 0 && !all[0].is_build_id(endian) {
        let others = all.drop_first();
        lemma_first_build_id(others, endian);
        match first_build_id(all, endian) {
            Some(id) => {
                let i = choose|i: int|
                    0 <= i < others.len() && (#[trigger] others[i]).is_build_id(endian)
                        && others[i].desc == id;
                assert(all[i + 1] == others[i]);
            },
            None => {
                assert forall|i: int| 0 <= i < all.len() implies !(#[trigger] all[i]).is_build_id(
                    endian,
                ) by {
                    if i > 0 {
                        assert(all[i] == others[i - 1]);
                    }
                }
            },
        }
    }
}

/// An integer of four bytes as it is written.
#[verifier::opaque]
pub open spec fn written_word(n: nat, endian: Endianness) -> Seq<u8> {
    let bytes = seq![
        (n % 0x100) as u8,
        (n / 0x100 % 0x100) as u8,
        (n / 0x1_0000 % 0x100) as u8,
        (n / 0x100_0000 % 0x100) as u8,
    ];
    match endian {
        Endianness::Little => bytes,
        Endianness::Big => seq![bytes[3], bytes[2], bytes[1], bytes[0]],
    }
}

/// A written integer is read back, wherever it stands.
pub proof fn written_word_is_read_back(
    before: Seq<u8>,
    n: nat,
    after: Seq<u8>,
    endian: Endianness,
)
    requires
        n <= u32::MAX,
    ensures
        word_at(before + written_word(n, endian) + after, before.len() as int, endian) == n,
{
    reveal(written_word);
    let word = written_word(n, endian);
    let data = before + word + after;
    let at = before.len() as int;
    assert(data[at] == word[0]);
    assert(data[at + 1] == word[1]);
    assert(data[at + 2] == word[2]);
    assert(data[at + 3] == word[3]);
    assert(n == n % 0x100 + 0x100 * (n / 0x100 % 0x100) + 0x1_0000 * (n / 0x1_0000 % 0x100)
        + 0x100_0000 * (n / 0x100_0000 % 0x100));
}

/// The header of a note as it is written: the length of the name, that of the descriptor, and the
/// type.
pub open spec fn written_header(
    name: Seq<u8>,
    desc: Seq<u8>,
    n_type: u32,
    endian: Endianness,
) -> Seq<u8> {
    written_word(name.len(), endian) + written_word(desc.len(), endian) + written_word(
        n_type as nat,
        endian,
    )
}

/// `padding` fills up to the next multiple of `align` behind `length` bytes.
pub open spec fn fills_up(length: nat, padding: Seq<u8>, align: int) -> bool {
    &&& (length + padding.len()) as int % align == 0
    &&& padding.len() < align
}

/// A written note is read back: its name, its descriptor and its type, and reading goes on with
/// exactly what follows it, for every length of name and descriptor and whatever the padding is.
pub proof fn written_note_is_read_back(
    name: Seq<u8>,
    name_padding: Seq<u8>,
    desc: Seq<u8>,
    desc_padding: Seq<u8>,
    n_type: u32,
    align: int,
    endian: Endianness,
    rest: Seq<u8>,
)
    requires
        align == 4 || align == 8,
        name.len() <= u32::MAX,
        desc.len() <= u32::MAX,
        fills_up(12 + name.len(), name_padding, align),
        fills_up(12 + name.len() + name_padding.len() + desc.len(), desc_padding, align),
    ensures
        ({
            let data = written_header(name, desc, n_type, endian) + name + name_padding + desc
                + desc_padding + rest;
            &&& first_note(data, align, endian) matches Some((note, behind)) && {
                &&& note.name == name
                &&& note.desc == desc
                &&& note.n_type(endian) == n_type
                &&& behind == rest
            }
            &&& notes(data, align, endian).len() == 1 + notes(rest, align, endian).len()
            &&& notes(data, align, endian)[0].name == name
            &&& notes(data, align, endian)[0].desc == desc
            &&& notes(data, align, endian)[0].n_type(endian) == n_type
            &&& forall|i: int|
                0 <= i < notes(rest, align, endian).len() ==> notes(data, align, endian)[i + 1]
                    == #[trigger] notes(rest, align, endian)[i]
        }),
{
    let header = written_header(name, desc, n_type, endian);
    lemma_written_header(name, desc, n_type, endian);
    lemma_note_from_parts(header, name, name_padding, desc, desc_padding, rest, align, endian);
    let data = header + name + name_padding + desc + desc_padding + rest;
    let note = NoteView { header, name, desc };
    assert(notes(data, align, endian) =~= seq![note] + notes(rest, align, endian));
}

/// The fields of a written header are read back.
proof fn lemma_written_header(name: Seq<u8>, desc: Seq<u8>, n_type: u32, endian: Endianness)
    requires
        name.len() <= u32::MAX,
        desc.len() <= u32::MAX,
    ensures
        written_header(name, desc, n_type, endian).len() == 12,
        word_at(written_header(name, desc, n_type, endian), 0, endian) == name.len(),
        word_at(written_header(name, desc, n_type, endian), 4, endian) == desc.len(),
        word_at(written_header(name, desc, n_type, endian), 8, endian) == n_type,
{
    let header = written_header(name, desc, n_type, endian);
    let first = written_word(name.len(), endian);
    let second = written_word(desc.len(), endian);
    let third = written_word(n_type as nat, endian);
    assert(first.len() == 4 && second.len() == 4 && third.len() == 4) by {
        reveal(written_word);
    }
    let none = Seq::<u8>::empty();
    written_word_is_read_back(none, name.len(), second + third, endian);
    assert(none + first + (second + third) =~= header);
    written_word_is_read_back(first, desc.len(), third, endian);
    assert(first + second + third =~= header);
    written_word_is_read_back(first + second, n_type as nat, none, endian);
    assert(first + second + third + none =~= header);
}

/// Data that starts with a header has the header's words.
proof fn lemma_words_of_header(header: Seq<u8>, data: Seq<u8>, endian: Endianness)
    requires
        header.len() == 12,
        data.len() >= 12,
        data.take(12) == header,
    ensures
        word_at(data, 0, endian) == word_at(header, 0, endian),
        word_at(data, 4, endian) == word_at(header, 4, endian),
{
    assert forall|i: int| 0 <= i < 12 implies data[i] == #[trigger] header[i] by {
        assert(data.take(12)[i] == data[i]);
    }
}

/// A header, a name and a descriptor with what fills up behind them are a note.
proof fn lemma_note_from_parts(
    header: Seq<u8>,
    name: Seq<u8>,
    name_padding: Seq<u8>,
    desc: Seq<u8>,
    desc_padding: Seq<u8>,
    rest: Seq<u8>,
    align: int,
    endian: Endianness,
)
    requires
        align == 4 || align == 8,
        header.len() == 12,
        word_at(header, 0, endian) == name.len(),
        word_at(header, 4, endian) == desc.len(),
        fills_up(12 + name.len(), name_padding, align),
        fills_up(12 + name.len() + name_padding.len() + desc.len(), desc_padding, align),
    ensures
        first_note(
            header + name + name_padding + desc + desc_padding + rest,
            align,
            endian,
        ) == Some((NoteView { header, name, desc }, rest)),
{
    let data = header + name + name_padding + desc + desc_padding + rest;
    assert(data.take(12) =~= header);
    lemma_words_of_header(header, data, endian);
    let name_end = 12 + name.len() as int;
    let desc_start = name_end + name_padding.len();
    let desc_end = desc_start + desc.len();
    let next = desc_end + desc_padding.len();
    lemma_align_up_unique(name_end, desc_start, align);
    lemma_align_up_unique(desc_end, next, align);
    assert(data.subrange(12, name_end) =~= name);
    assert(data.subrange(desc_start, desc_end) =~= desc);
    assert(data.skip(next) =~= rest);
}

/// The only multiple of `size` from `offset` on that is less than `size` away.
proof fn lemma_align_up_unique(offset: int, aligned: int, size: int)
    requires
        0 <= offset <= aligned < offset + size,
        aligned % size == 0,
        size == 4 || size == 8,
    ensures
        align_up(offset, size) == aligned,
{
    lemma_align_up(offset, size);
}

/// A last note needs no padding behind its descriptor, and a note of which a part is missing is
/// not read.
pub proof fn note_needs_all_its_parts(
    name: Seq<u8>,
    name_padding: Seq<u8>,
    desc: Seq<u8>,
    n_type: u32,
    align: int,
    endian: Endianness,
    length: int,
)
    requires
        align == 4 || align == 8,
        name.len() <= u32::MAX,
        desc.len() <= u32::MAX,
        fills_up(12 + name.len(), name_padding, align),
        0 <= length <= 12 + name.len() + name_padding.len() + desc.len(),
    ensures
        ({
            let data = written_header(name, desc, n_type, endian) + name + name_padding + desc;
            &&& length < data.len() ==> notes(data.take(length), align, endian).len() == 0
            &&& notes(data, align, endian).len() == 1
            &&& notes(data, align, endian)[0].name == name
            &&& notes(data, align, endian)[0].desc == desc
        }),
{
    let header = written_header(name, desc, n_type, endian);
    let data = header + name + name_padding + desc;
    lemma_written_header(name, desc, n_type, endian);
    lemma_last_note(header, name, name_padding, desc, align, endian, length);
    let note = NoteView { header, name, desc };
    let none = Seq::<u8>::empty();
    assert(notes(none, align, endian) =~= Seq::<NoteView>::empty());
    assert(notes(data, align, endian) =~= seq![note]);
}

/// A header, a name and a descriptor are a note, with nothing behind it, and less is none.
proof fn lemma_last_note(
    header: Seq<u8>,
    name: Seq<u8>,
    name_padding: Seq<u8>,
    desc: Seq<u8>,
    align: int,
    endian: Endianness,
    length: int,
)
    requires
        align == 4 || align == 8,
        header.len() == 12,
        word_at(header, 0, endian) == name.len(),
        word_at(header, 4, endian) == desc.len(),
        fills_up(12 + name.len(), name_padding, align),
        0 <= length <= 12 + name.len() + name_padding.len() + desc.len(),
    ensures
        first_note(header + name + name_padding + desc, align, endian) == Some(
            (NoteView { header, name, desc }, Seq::<u8>::empty()),
        ),
        length < (header + name + name_padding + desc).len() ==> first_note(
            (header + name + name_padding + desc).take(length),
            align,
            endian,
        ) is None,
{
    let data = header + name + name_padding + desc;
    let name_end = 12 + name.len() as int;
    let desc_start = name_end + name_padding.len();
    let desc_end = desc_start + desc.len();
    assert(data.take(12) =~= header);
    lemma_words_of_header(header, data, endian);
    lemma_align_up_unique(name_end, desc_start, align);
    lemma_align_up(desc_end, align);
    assert(data.subrange(12, name_end) =~= name);
    assert(data.subrange(desc_start, desc_end) =~= desc);
    let next = align_up(desc_end, align);
    if next <= data.len() {
        assert(data.skip(next) =~= Seq::<u8>::empty());
    }
    let cut = data.take(length);
    if 12 <= length {
        assert(cut.take(12) =~= header);
        lemma_words_of_header(header, cut, endian);
    }
}

/// The notes as they are written: for each its name, its descriptor and its type, filled up with
/// zeros.
pub open spec fn written_notes(
    entries: Seq<(Seq<u8>, Seq<u8>, u32)>,
    align: int,
    endian: Endianness,
) -> Seq<u8>
    decreases entries.len(),
{
    if entries.len() == 0 {
        Seq::empty()
    } else {
        let (name, desc, n_type) = entries[0];
        written_header(name, desc, n_type, endian) + name + zeros_to_fill_up(
            12 + name.len(),
            align,
        ) + desc + zeros_to_fill_up(desc.len(), align) + written_notes(
            entries.drop_first(),
            align,
            endian,
        )
    }
}

/// The zeros that fill up to the next multiple of `align` behind `length` bytes.
pub open spec fn zeros_to_fill_up(length: nat, align: int) -> Seq<u8> {
    Seq::new(((align - length as int % align) % align) as nat, |i: int| 0u8)
}

/// Written notes are read back: all of them, in their order, each with its name, its descriptor
/// and its type, whatever the lengths are.
pub proof fn written_notes_are_read_back(
    entries: Seq<(Seq<u8>, Seq<u8>, u32)>,
    align: int,
    endian: Endianness,
)
    requires
        align == 4 || align == 8,
        forall|k: int|
            0 <= k < entries.len() ==> (#[trigger] entries[k]).0.len() <= u32::MAX
                && entries[k].1.len() <= u32::MAX,
    ensures
        notes(written_notes(entries, align, endian), align, endian).len() == entries.len(),
        forall|k: int|
            0 <= k < entries.len() ==> {
                let read = notes(written_notes(entries, align, endian), align, endian)[k];
                &&& read.name == (#[trigger] entries[k]).0
                &&& read.desc == entries[k].1
                &&& read.n_type(endian) == entries[k].2
            },
    decreases entries.len(),
{
    let data = written_notes(entries, align, endian);
    let all = notes(data, align, endian);
    if entries.len() == 0 {
        assert(all =~= Seq::<NoteView>::empty());
    } else {
        let (name, desc, n_type) = entries[0];
        let others = entries.drop_first();
        let rest = written_notes(others, align, endian);
        written_notes_are_read_back(others, align, endian);
        let name_padding = zeros_to_fill_up(12 + name.len(), align);
        let desc_padding = zeros_to_fill_up(desc.len(), align);
        lemma_zeros_fill_up(12 + name.len(), align);
        lemma_zeros_fill_up(desc.len(), align);
        assert(fills_up(
            12 + name.len() + name_padding.len() + desc.len(),
            desc_padding,
            align,
        )) by {
            lemma_sum_of_multiples(
                (12 + name.len() + name_padding.len()) as int,
                (desc.len() + desc_padding.len()) as int,
                align,
            );
        }
        written_note_is_read_back(
            name,
            name_padding,
            desc,
            desc_padding,
            n_type,
            align,
            endian,
            rest,
        );
        let read = notes(rest, align, endian);
        assert forall|k: int| 0 <= k < entries.len() implies {
            &&& all[k].name == (#[trigger] entries[k]).0
            &&& all[k].desc == entries[k].1
            &&& all[k].n_type(endian) == entries[k].2
        } by {
            if k > 0 {
                assert(others[k - 1] == entries[k]);
                assert(all[k] == read[k - 1]);
            }
        }
    }
}

proof fn lemma_zeros_fill_up(length: nat, align: int)
    requires
        align == 4 || align == 8,
    ensures
        fills_up(length, zeros_to_fill_up(length, align), align),
{
    if align == 4 {
        assert((length + (4 - length as int % 4) % 4) % 4 == 0);
    } else {
        assert((length + (8 - length as int % 8) % 8) % 8 == 0);
    }
}

proof fn lemma_sum_of_multiples(a: int, b: int, size: int)
    requires
        size == 4 || size == 8,
        a % size == 0,
        b % size == 0,
    ensures
        (a + b) % size == 0,
{
    if size == 4 {
        assert((a + b) % 4 == 0);
    } else {
        assert((a + b) % 8 == 0);
    }
}

/// The build ID among some notes is the descriptor of the first note that is named `GNU`, with or
/// without a terminator, and has the type 3. If no note is, there is none.
pub proof fn first_gnu_note_of_type_three_is_the_build_id(
    all: Seq<NoteView>,
    endian: Endianness,
    k: int,
)
    requires
        0 <= k <= all.len(),
        forall|i: int|
            0 <= i < k ==> !(((#[trigger] all[i]).name == seq![0x47u8, 0x4eu8, 0x55u8]
                || all[i].name == seq![0x47u8, 0x4eu8, 0x55u8, 0u8]) && all[i].n_type(endian) == 3),
        k < all.len() ==> (all[k].name == seq![0x47u8, 0x4eu8, 0x55u8] || all[k].name == seq![
            0x47u8,
            0x4eu8,
            0x55u8,
            0u8,
        ]) && all[k].n_type(endian) == 3,
    ensures
        k < all.len() ==> first_build_id(all, endian) == Some(all[k].desc),
        k == all.len() ==> first_build_id(all, endian) is None,
    decreases all.len(),
{
    if all.len() > 0 {
        lemma_gnu_name(all[0].name);
        if k > 0 {
            let others = all.drop_first();
            assert forall|i: int| 0 <= i < k - 1 implies !(((#[trigger] others[i]).name == seq![
                0x47u8,
                0x4eu8,
                0x55u8,
            ] || others[i].name == seq![0x47u8, 0x4eu8, 0x55u8, 0u8]) && others[i].n_type(endian)
                == 3) by {
                assert(others[i] == all[i + 1]);
            }
            assert(!((all[0].name == seq![0x47u8, 0x4eu8, 0x55u8] || all[0].name == seq![
                0x47u8,
                0x4eu8,
                0x55u8,
                0u8,
            ]) && all[0].n_type(endian) == 3));
            first_gnu_note_of_type_three_is_the_build_id(others, endian, k - 1);
        }
    }
}

/// A name is bare `GNU` with a terminator or without one.
proof fn lemma_gnu_name(name: Seq<u8>)
    ensures
        (name == seq![0x47u8, 0x4eu8, 0x55u8] || name == seq![0x47u8, 0x4eu8, 0x55u8, 0u8]) <==> (
        NoteView { header: name, name, desc: name }).bare_name() == gnu_name(),
{
    let bare = seq![0x47u8, 0x4eu8, 0x55u8];
    let note = NoteView { header: name, name, desc: name };
    assert(gnu_name() =~= bare);
    assert(seq![0x47u8, 0x4eu8, 0x55u8, 0u8] =~= bare.push(0u8));
    if note.bare_name() == gnu_name() && name.len() > 0 && name.last() == 0 {
        assert(name =~= bare.push(0u8));
    }
    if name == bare.push(0u8) {
        assert(name.drop_last() =~= bare);
    }
}

/// A name without its terminator is the name: one zero at the end is dropped, and nothing else.
pub proof fn one_terminator_is_dropped(note: NoteView, name: Seq<u8>)
    ensures
        note.name == name.push(0u8) ==> note.bare_name() == name,
        note.name.len() == 0 || note.name.last() != 0 ==> note.bare_name() == note.name,
{
    if note.name == name.push(0u8) {
        assert(note.name.drop_last() =~= name);
    }
}

/// A build ID that is written among notes is found: that of the first note that is named `GNU`
/// and has the type 3, wherever it stands and however long the notes before it are.
pub proof fn written_build_id_is_found(
    entries: Seq<(Seq<u8>, Seq<u8>, u32)>,
    endian: Endianness,
    k: int,
)
    requires
        forall|i: int|
            0 <= i < entries.len() ==> (#[trigger] entries[i]).0.len() <= u32::MAX
                && entries[i].1.len() <= u32::MAX,
        0 <= k < entries.len(),
        entries[k].0 == seq![0x47u8, 0x4eu8, 0x55u8, 0u8],
        entries[k].2 == 3,
        forall|i: int|
            0 <= i < k ==> !(((#[trigger] entries[i]).0 == seq![0x47u8, 0x4eu8, 0x55u8]
                || entries[i].0 == seq![0x47u8, 0x4eu8, 0x55u8, 0u8]) && entries[i].2 == 3),
    ensures
        build_id(written_notes(entries, 4, endian), endian) == Some(entries[k].1),
{
    let data = written_notes(entries, 4, endian);
    written_notes_are_read_back(entries, 4, endian);
    lemma_build_id_of_entries(notes(data, 4, endian), entries, endian, k);
}

/// What is read from written notes is a build ID where a build ID was written.
proof fn lemma_build_id_of_entries(
    all: Seq<NoteView>,
    entries: Seq<(Seq<u8>, Seq<u8>, u32)>,
    endian: Endianness,
    k: int,
)
    requires
        all.len() == entries.len(),
        forall|i: int|
            0 <= i < entries.len() ==> all[i].name == (#[trigger] entries[i]).0 && all[i].desc
                == entries[i].1 && all[i].n_type(endian) == entries[i].2,
        0 <= k < entries.len(),
        entries[k].0 == seq![0x47u8, 0x4eu8, 0x55u8, 0u8],
        entries[k].2 == 3,
        forall|i: int|
            0 <= i < k ==> !(((#[trigger] entries[i]).0 == seq![0x47u8, 0x4eu8, 0x55u8]
                || entries[i].0 == seq![0x47u8, 0x4eu8, 0x55u8, 0u8]) && entries[i].2 == 3),
    ensures
        first_build_id(all, endian) == Some(entries[k].1),
{
    assert forall|i: int| 0 <= i < k implies !(((#[trigger] all[i]).name == seq![
        0x47u8,
        0x4eu8,
        0x55u8,
    ] || all[i].name == seq![0x47u8, 0x4eu8, 0x55u8, 0u8]) && all[i].n_type(endian) == 3) by {
        assert(all[i].name == entries[i].0);
    }
    assert(all[k].name == entries[k].0);
    first_gnu_note_of_type_three_is_the_build_id(all, endian, k);
}

/// A machine is big endian if it is said to be, and little endian if not.
pub proof fn byte_orders_are_told_apart()
    ensures
        endianness_of(true) == Endianness::Big,
        endianness_of(false) == Endianness::Little,
{
}

} // verus!
