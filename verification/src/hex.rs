//! Hexadecimal numbers at the start of a byte string.

use vstd::arithmetic::power::{lemma_pow_increases, pow};
use vstd::prelude::*;

verus! {

/// The value of one hexadecimal digit, in either case.
pub open spec fn digit_value(b: u8) -> Option<u8> {
    if 0x30 <= b <= 0x39 {
        Some((b - 0x30) as u8)
    } else if 0x61 <= b <= 0x66 {
        Some((b - 0x61 + 10) as u8)
    } else if 0x41 <= b <= 0x46 {
        Some((b - 0x41 + 10) as u8)
    } else {
        None
    }
}

/// How many hexadecimal digits `s` starts with, counting no further than `max`.
pub open spec fn hex_len(s: Seq<u8>, max: nat) -> nat
    decreases max,
{
    if max == 0 || s.len() == 0 || digit_value(s[0]) is None {
        0
    } else {
        1 + hex_len(s.drop_first(), (max - 1) as nat)
    }
}

/// The number that a string of hexadecimal digits stands for, most significant digit first.
pub open spec fn hex_value(digits: Seq<u8>) -> nat
    decreases digits.len(),
{
    if digits.len() == 0 {
        0
    } else {
        16 * hex_value(digits.drop_last()) + digit_value(digits.last())->0 as nat
    }
}

/// `hex_len` is the length of the longest run of at most `max` digits at the start of `s`.
pub proof fn hex_len_is_longest(s: Seq<u8>, max: nat)
    ensures
        hex_len(s, max) <= max,
        hex_len(s, max) <= s.len(),
        forall|i: int| 0 <= i < hex_len(s, max) ==> digit_value(#[trigger] s[i]) is Some,
        hex_len(s, max) < max && hex_len(s, max) < s.len() ==> digit_value(
            s[hex_len(s, max) as int],
        ) is None,
    decreases max,
{
    if max == 0 || s.len() == 0 || digit_value(s[0]) is None {
    } else {
        let rest = s.drop_first();
        hex_len_is_longest(rest, (max - 1) as nat);
        assert forall|i: int| 0 <= i < hex_len(s, max) implies digit_value(
            #[trigger] s[i],
        ) is Some by {
            if i > 0 {
                assert(s[i] == rest[i - 1]);
            }
        }
    }
}

/// A run of `k` digits that cannot be made longer is the one that `hex_len` counts.
proof fn longest_run_is_hex_len(s: Seq<u8>, max: nat, k: nat)
    requires
        k <= max,
        k <= s.len(),
        forall|i: int| 0 <= i < k ==> digit_value(#[trigger] s[i]) is Some,
        k < max && k < s.len() ==> digit_value(s[k as int]) is None,
    ensures
        hex_len(s, max) == k,
    decreases max,
{
    if k > 0 {
        assert(digit_value(s[0]) is Some);
        assert forall|i: int| 0 <= i < k - 1 implies digit_value(
            #[trigger] s.drop_first()[i],
        ) is Some by {
            assert(s.drop_first()[i] == s[i + 1]);
        }
        longest_run_is_hex_len(s.drop_first(), (max - 1) as nat, (k - 1) as nat);
    }
}

/// A string of `n` digits stands for a number below `16^n`.
pub proof fn hex_value_bound(digits: Seq<u8>)
    requires
        forall|i: int| 0 <= i < digits.len() ==> digit_value(#[trigger] digits[i]) is Some,
    ensures
        hex_value(digits) < pow(16, digits.len()),
    decreases digits.len(),
{
    reveal(pow);
    if digits.len() > 0 {
        hex_value_bound(digits.drop_last());
    }
}

/// The unsigned integer types that a hexadecimal number can be parsed to.
pub trait HexInt: Copy + Sized {
    /// The number of hexadecimal digits that fill the type: two for each byte.
    spec fn max_digits() -> nat;

    /// The number held.
    spec fn value(self) -> nat;

    /// Two hex digits form one byte.
    fn max_len() -> (n: usize)
        ensures
            n == Self::max_digits(),
    ;

    fn zero() -> (z: Self)
        ensures
            z.value() == 0,
    ;

    /// Shifts the number left by one digit and puts `digit` in the free place.
    fn append_digit(self, digit: u8) -> (r: Self)
        requires
            digit < 16,
            16 * self.value() + digit < pow(16, Self::max_digits()),
        ensures
            r.value() == 16 * self.value() + digit,
    ;
}

impl HexInt for u32 {
    open spec fn max_digits() -> nat {
        8
    }

    open spec fn value(self) -> nat {
        self as nat
    }

    fn max_len() -> (n: usize) {
        8
    }

    fn zero() -> (z: Self) {
        0
    }

    fn append_digit(self, digit: u8) -> (r: Self) {
        proof {
            assert(pow(16, 8) == 0x1_0000_0000) by {
                reveal_with_fuel(pow, 9);
            }
            let d = digit as u32;
            assert((self << 4) | d == 16 * self + d) by (bit_vector)
                requires
                    self <= 0x0fff_ffffu32,
                    d < 16,
            ;
        }
        (self << 4) | (digit as u32)
    }
}

impl HexInt for u64 {
    open spec fn max_digits() -> nat {
        16
    }

    open spec fn value(self) -> nat {
        self as nat
    }

    fn max_len() -> (n: usize) {
        16
    }

    fn zero() -> (z: Self) {
        0
    }

    fn append_digit(self, digit: u8) -> (r: Self) {
        proof {
            assert(pow(16, 16) == 0x1_0000_0000_0000_0000) by {
                reveal_with_fuel(pow, 17);
            }
            let d = digit as u64;
            assert((self << 4) | d == 16 * self + d) by (bit_vector)
                requires
                    self <= 0x0fff_ffff_ffff_ffffu64,
                    d < 16,
            ;
        }
        (self << 4) | (digit as u64)
    }
}

fn to_digit(b: u8) -> (d: Option<u8>)
    ensures
        d == digit_value(b),
{
    if 0x30 <= b && b <= 0x39 {
        Some(b - 0x30)
    } else if 0x61 <= b && b <= 0x66 {
        Some(b - 0x61 + 10)
    } else if 0x41 <= b && b <= 0x46 {
        Some(b - 0x41 + 10)
    } else {
        None
    }
}

/// Match a hex string, parse it to a u32 or a u64.
///
/// Consumes up to eight digits for a u32 and up to sixteen for a u64, and returns what follows
/// them together with the number.
pub fn hex_str<T: HexInt>(input: &[u8]) -> (r: Result<(&[u8], T), &'static str>)
    ensures
        match r {
            Ok((remaining, number)) => {
                let k = hex_len(input@, T::max_digits());
                &&& k > 0
                &&& remaining@ == input@.skip(k as int)
                &&& number.value() == hex_value(input@.take(k as int))
            },
            Err(message) => {
                &&& hex_len(input@, T::max_digits()) == 0
                &&& message@ == "Bad hex digit"@
            },
        },
{
    let max_len: usize = T::max_len();
    let mut res: T = T::zero();
    let mut k: usize = 0;
    while k < max_len && k < input.len()
        invariant
            max_len == T::max_digits(),
            k <= max_len,
            k <= input@.len(),
            forall|i: int| 0 <= i < k ==> digit_value(#[trigger] input@[i]) is Some,
            res.value() == hex_value(input@.take(k as int)),
        ensures
            k <= max_len,
            k <= input@.len(),
            forall|i: int| 0 <= i < k ==> digit_value(#[trigger] input@[i]) is Some,
            k < max_len && k < input@.len() ==> digit_value(input@[k as int]) is None,
            res.value() == hex_value(input@.take(k as int)),
        decreases input@.len() - k,
    {
        match to_digit(input[k]) {
            Some(digit) => {
                proof {
                    let longer = input@.take(k + 1);
                    assert(longer.drop_last() =~= input@.take(k as int));
                    assert forall|i: int| 0 <= i < longer.len() implies digit_value(
                        #[trigger] longer[i],
                    ) is Some by {
                        assert(longer[i] == input@[i]);
                    }
                    hex_value_bound(longer);
                    lemma_pow_increases(16, (k + 1) as nat, T::max_digits());
                }
                res = res.append_digit(digit);
                k = k + 1;
            },
            None => {
                break;
            },
        }
    }
    proof {
        longest_run_is_hex_len(input@, T::max_digits(), k as nat);
    }
    if k == 0 {
        return Err("Bad hex digit");
    }
    assert(input@.subrange(k as int, input@.len() as int) =~= input@.skip(k as int));
    Ok((&input[k..input.len()], res))
}

/// The hexadecimal digits: ten figures, then six letters in either case, and nothing else.
pub proof fn sixteen_digits_in_either_case(b: u8, v: u8)
    ensures
        v < 10 ==> digit_value((0x30 + v) as u8) == Some(v),
        10 <= v < 16 ==> digit_value((0x61 + (v - 10)) as u8) == Some(v),
        10 <= v < 16 ==> digit_value((0x41 + (v - 10)) as u8) == Some(v),
        digit_value(b) is Some <==> (0x30 <= b && b <= 0x39) || (0x61 <= b && b <= 0x66) || (0x41
            <= b && b <= 0x46),
        digit_value(b) matches Some(value) ==> value < 16,
{
}

/// A further digit multiplies the number by sixteen and adds its own value. Leading zeros do not
/// change the number.
pub proof fn digits_count_by_sixteen(digits: Seq<u8>, b: u8)
    ensures
        hex_value(Seq::<u8>::empty()) == 0,
        digit_value(b) matches Some(value) ==> hex_value(digits.push(b)) == 16 * hex_value(digits)
            + value,
        hex_value(seq![0x30u8] + digits) == hex_value(digits),
    decreases digits.len(),
{
    assert(digits.push(b).drop_last() =~= digits);
    if digits.len() == 0 {
        assert((seq![0x30u8] + digits).drop_last() =~= Seq::<u8>::empty());
        assert(hex_value(Seq::<u8>::empty()) == 0);
        assert((seq![0x30u8] + digits).last() == 0x30u8);
        assert(digits =~= Seq::<u8>::empty());
    } else {
        let shorter = digits.drop_last();
        digits_count_by_sixteen(shorter, b);
        assert((seq![0x30u8] + digits).drop_last() =~= seq![0x30u8] + shorter);
        assert((seq![0x30u8] + digits).last() == digits.last());
    }
}

/// A number that is written in hexadecimal, with any number of leading zeros, is read back.
pub proof fn written_number_is_read_back(n: nat, zeros: nat)
    ensures
        hex_value(Seq::new(zeros, |i: int| 0x30u8) + hex_bytes(n)) == n,
    decreases zeros,
{
    let written = Seq::new(zeros, |i: int| 0x30u8) + hex_bytes(n);
    if zeros == 0 {
        assert(written =~= hex_bytes(n));
        lemma_hex_bytes(n);
    } else {
        let fewer = (zeros - 1) as nat;
        written_number_is_read_back(n, fewer);
        let rest = Seq::new(fewer, |i: int| 0x30u8) + hex_bytes(n);
        assert(written =~= seq![0x30u8] + rest);
        digits_count_by_sixteen(rest, 0x30u8);
    }
}

/// The bytes that a number is written with in hexadecimal, in lower case.
pub open spec fn hex_bytes(n: nat) -> Seq<u8>
    decreases n,
{
    let last = if n % 16 < 10 {
        (0x30 + n % 16) as u8
    } else {
        (0x61 + n % 16 - 10) as u8
    };
    if n < 16 {
        seq![last]
    } else {
        hex_bytes(n / 16).push(last)
    }
}

proof fn lemma_hex_bytes(n: nat)
    ensures
        hex_value(hex_bytes(n)) == n,
        hex_bytes(n).len() > 0,
        forall|i: int|
            0 <= i < hex_bytes(n).len() ==> digit_value(#[trigger] hex_bytes(n)[i]) is Some,
    decreases n,
{
    let last = hex_bytes(n).last();
    if n < 16 {
        assert(hex_bytes(n).drop_last() =~= Seq::<u8>::empty());
        assert(hex_value(Seq::<u8>::empty()) == 0);
        assert(digit_value(last) == Some(n as u8));
    } else {
        lemma_hex_bytes(n / 16);
        assert(hex_bytes(n).drop_last() =~= hex_bytes(n / 16));
        assert forall|i: int| 0 <= i < hex_bytes(n).len() implies digit_value(
            #[trigger] hex_bytes(n)[i],
        ) is Some by {
            if i < hex_bytes(n / 16).len() {
                assert(hex_bytes(n)[i] == hex_bytes(n / 16)[i]);
            }
        }
    }
}

/// The digits at the start are counted up to the first byte that is none, but no further than the
/// given number.
pub proof fn digits_end_at_the_first_other_byte(digits: Seq<u8>, rest: Seq<u8>, max: nat)
    requires
        digits.len() <= max,
        forall|i: int| 0 <= i < digits.len() ==> digit_value(#[trigger] digits[i]) is Some,
        digits.len() == max || rest.len() == 0 || digit_value(rest[0]) is None,
    ensures
        hex_len(digits + rest, max) == digits.len(),
{
    let all = digits + rest;
    assert forall|i: int| 0 <= i < digits.len() implies digit_value(#[trigger] all[i]) is Some by {
        assert(all[i] == digits[i]);
    }
    if digits.len() < all.len() {
        assert(all[digits.len() as int] == rest[0]);
    }
    longest_run_is_hex_len(all, max, digits.len());
}

/// A u32 takes eight digits and a u64 sixteen, and each is the number that it holds.
pub proof fn two_digits_for_each_byte(small: u32, large: u64)
    ensures
        <u32 as HexInt>::max_digits() == 8,
        <u64 as HexInt>::max_digits() == 16,
        small.value() == small,
        large.value() == large,
{
}

} // verus!
