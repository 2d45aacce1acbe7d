//! The order of strings.

use vstd::prelude::*;
use vstd::utf8::{encode_utf8, encode_utf8_decode_utf8};

verus! {

/// Byte strings in the order of a dictionary: the first byte that differs decides, and a string
/// stands before its own continuations.
pub open spec fn bytes_le(a: Seq<u8>, b: Seq<u8>) -> bool
    decreases a.len(),
{
    if a.len() == 0 {
        true
    } else if b.len() == 0 {
        false
    } else if a[0] != b[0] {
        a[0] < b[0]
    } else {
        bytes_le(a.drop_first(), b.drop_first())
    }
}

/// Strings in the order of their UTF-8 bytes.
pub open spec fn text_le(a: Seq<char>, b: Seq<char>) -> bool {
    bytes_le(encode_utf8(a), encode_utf8(b))
}

proof fn lemma_bytes_total(a: Seq<u8>, b: Seq<u8>)
    ensures
        bytes_le(a, b) || bytes_le(b, a),
    decreases a.len(),
{
    if a.len() > 0 && b.len() > 0 && a[0] == b[0] {
        lemma_bytes_total(a.drop_first(), b.drop_first());
    }
}

proof fn lemma_bytes_transitive(a: Seq<u8>, b: Seq<u8>, c: Seq<u8>)
    requires
        bytes_le(a, b),
        bytes_le(b, c),
    ensures
        bytes_le(a, c),
    decreases a.len(),
{
    if a.len() > 0 && a[0] == b[0] && b[0] == c[0] {
        lemma_bytes_transitive(a.drop_first(), b.drop_first(), c.drop_first());
    }
}

proof fn lemma_bytes_antisymmetric(a: Seq<u8>, b: Seq<u8>)
    requires
        bytes_le(a, b),
        bytes_le(b, a),
    ensures
        a == b,
    decreases a.len(),
{
    if a.len() > 0 && b.len() > 0 {
        lemma_bytes_antisymmetric(a.drop_first(), b.drop_first());
        assert(a =~= seq![a[0]] + a.drop_first());
        assert(b =~= seq![b[0]] + b.drop_first());
    } else {
        assert(a =~= b);
    }
}

/// Any two strings are ordered one way or the other.
pub proof fn text_le_total(a: Seq<char>, b: Seq<char>)
    ensures
        text_le(a, b) || text_le(b, a),
{
    lemma_bytes_total(encode_utf8(a), encode_utf8(b));
}

/// The order of strings is transitive.
pub proof fn text_le_transitive(a: Seq<char>, b: Seq<char>, c: Seq<char>)
    requires
        text_le(a, b),
        text_le(b, c),
    ensures
        text_le(a, c),
{
    lemma_bytes_transitive(encode_utf8(a), encode_utf8(b), encode_utf8(c));
}

/// Strings that are ordered both ways are the same.
pub proof fn text_le_antisymmetric(a: Seq<char>, b: Seq<char>)
    requires
        text_le(a, b),
        text_le(b, a),
    ensures
        a == b,
{
    lemma_bytes_antisymmetric(encode_utf8(a), encode_utf8(b));
    encode_utf8_decode_utf8(a);
    encode_utf8_decode_utf8(b);
}

/// Compares two strings.
pub fn is_text_le(a: &str, b: &str) -> (r: bool)
    ensures
        r == text_le(a@, b@),
{
    let a_bytes: &[u8] = a.as_bytes();
    let b_bytes: &[u8] = b.as_bytes();
    let mut i: usize = 0;
    assert(a_bytes@.skip(0) =~= a_bytes@);
    assert(b_bytes@.skip(0) =~= b_bytes@);
    while i < a_bytes.len() && i < b_bytes.len()
        invariant
            i <= a_bytes@.len(),
            i <= b_bytes@.len(),
            bytes_le(a_bytes@, b_bytes@) == bytes_le(
                a_bytes@.skip(i as int),
                b_bytes@.skip(i as int),
            ),
            a_bytes@ == encode_utf8(a@),
            b_bytes@ == encode_utf8(b@),
        decreases a_bytes@.len() - i,
    {
        if a_bytes[i] != b_bytes[i] {
            return a_bytes[i] < b_bytes[i];
        }
        assert(a_bytes@.skip(i as int).drop_first() =~= a_bytes@.skip(i + 1));
        assert(b_bytes@.skip(i as int).drop_first() =~= b_bytes@.skip(i + 1));
        i = i + 1;
    }
    i == a_bytes.len()
}

/// Two strings are the same.
pub fn is_same_text(a: &str, b: &str) -> (r: bool)
    ensures
        r == (a@ == b@),
{
    let a_bytes: &[u8] = a.as_bytes();
    let b_bytes: &[u8] = b.as_bytes();
    let r: bool = is_same_bytes(a_bytes, b_bytes);
    proof {
        encode_utf8_decode_utf8(a@);
        encode_utf8_decode_utf8(b@);
    }
    r
}

/// Two byte strings are the same.
pub fn is_same_bytes(a: &[u8], b: &[u8]) -> (r: bool)
    ensures
        r == (a@ == b@),
{
    if a.len() != b.len() {
        return false;
    }
    let mut i: usize = 0;
    while i < a.len()
        invariant
            i <= a@.len(),
            a@.len() == b@.len(),
            forall|j: int| 0 <= j < i ==> a@[j] == b@[j],
        decreases a@.len() - i,
    {
        if a[i] != b[i] {
            return false;
        }
        i = i + 1;
    }
    assert(a@ =~= b@);
    true
}

/// Two strings that may be missing are the same.
pub fn is_same_optional_text(a: &Option<String>, b: &Option<String>) -> (r: bool)
    ensures
        r == (optional_text(*a) == optional_text(*b)),
{
    match (a, b) {
        (Some(x), Some(y)) => is_same_text(x.as_str(), y.as_str()),
        (None, None) => true,
        _ => false,
    }
}

/// The text of a string that may be missing.
pub open spec fn optional_text(s: Option<String>) -> Option<Seq<char>> {
    match s {
        Some(s) => Some(s@),
        None => None,
    }
}

/// The order of strings that may be missing: a missing string comes first.
pub open spec fn optional_text_le(a: Option<Seq<char>>, b: Option<Seq<char>>) -> bool {
    match (a, b) {
        (None, _) => true,
        (Some(_), None) => false,
        (Some(a), Some(b)) => text_le(a, b),
    }
}

/// Compares two strings that may be missing.
pub fn is_optional_text_le(a: &Option<String>, b: &Option<String>) -> (r: bool)
    ensures
        r == optional_text_le(optional_text(*a), optional_text(*b)),
{
    match (a, b) {
        (None, _) => true,
        (Some(_), None) => false,
        (Some(a), Some(b)) => is_text_le(a.as_str(), b.as_str()),
    }
}

/// The order of strings that may be missing is total.
pub proof fn optional_text_le_total(a: Option<Seq<char>>, b: Option<Seq<char>>)
    ensures
        optional_text_le(a, b) || optional_text_le(b, a),
{
    if let (Some(a), Some(b)) = (a, b) {
        text_le_total(a, b);
    }
}

/// The order of strings that may be missing is transitive.
pub proof fn optional_text_le_transitive(
    a: Option<Seq<char>>,
    b: Option<Seq<char>>,
    c: Option<Seq<char>>,
)
    requires
        optional_text_le(a, b),
        optional_text_le(b, c),
    ensures
        optional_text_le(a, c),
{
    if let (Some(a), Some(b), Some(c)) = (a, b, c) {
        text_le_transitive(a, b, c);
    }
}

/// Strings that may be missing and are ordered both ways are the same.
pub proof fn optional_text_le_antisymmetric(a: Option<Seq<char>>, b: Option<Seq<char>>)
    requires
        optional_text_le(a, b),
        optional_text_le(b, a),
    ensures
        a == b,
{
    if let (Some(a), Some(b)) = (a, b) {
        text_le_antisymmetric(a, b);
    }
}

/// A copy of a string that may be missing.
pub fn clone_optional_text(s: &Option<String>) -> (r: Option<String>)
    ensures
        optional_text(r) == optional_text(*s),
{
    match s {
        Some(s) => Some(s.clone()),
        None => None,
    }
}

/// The first byte that differs decides the order of byte strings, and a string stands before its
/// own continuations.
pub proof fn first_difference_decides(
    common: Seq<u8>,
    low: u8,
    high: u8,
    a: Seq<u8>,
    b: Seq<u8>,
)
    requires
        low < high,
    ensures
        bytes_le(common + seq![low] + a, common + seq![high] + b),
        !bytes_le(common + seq![high] + b, common + seq![low] + a),
        bytes_le(common, common + a),
        a.len() > 0 ==> !bytes_le(common + a, common),
    decreases common.len(),
{
    let x = common + seq![low] + a;
    let y = common + seq![high] + b;
    if common.len() == 0 {
        assert(x[0] == low);
        assert(y[0] == high);
    } else {
        let rest = common.drop_first();
        first_difference_decides(rest, low, high, a, b);
        assert(x[0] == common[0] && y[0] == common[0]);
        assert(x.drop_first() =~= rest + seq![low] + a);
        assert(y.drop_first() =~= rest + seq![high] + b);
        assert((common + a)[0] == common[0]);
        assert((common + a).drop_first() =~= rest + a);
    }
}

/// Strings are ordered as their UTF-8 bytes are. A missing string stands before all others.
pub proof fn strings_are_ordered_by_their_bytes(a: Seq<char>, b: Seq<char>)
    ensures
        text_le(a, b) <==> bytes_le(encode_utf8(a), encode_utf8(b)),
        optional_text_le(Some(a), Some(b)) <==> text_le(a, b),
        optional_text_le(None, Some(a)),
        optional_text_le(None, None),
        !optional_text_le(Some(a), None),
{
}

/// The text of a string that may be missing is missing if the string is.
pub proof fn missing_text_is_a_missing_string(s: Option<String>)
    ensures
        s matches Some(text) ==> optional_text(s) == Some(text@),
        s is None ==> optional_text(s) is None,
{
}

} // verus!
