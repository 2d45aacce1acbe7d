//! Numbers as text.

use vstd::prelude::*;

verus! {

/// The character for one digit.
pub open spec fn digit_char(d: nat) -> char {
    if d < 10 {
        (0x30 + d) as char
    } else {
        (0x61 + d - 10) as char
    }
}

/// The digits of `n` to the given base, most significant digit first, without leading zeros.
pub open spec fn digits(n: nat, base: nat) -> Seq<char>
    decreases n,
{
    if base < 2 || n < base {
        seq![digit_char(n)]
    } else {
        proof {
            assert(n / base < n) by (nonlinear_arith)
                requires
                    n >= base,
                    base >= 2,
            ;
        }
        digits(n / base, base).push(digit_char(n % base))
    }
}

fn digit_str(d: u64) -> (s: &'static str)
    requires
        d < 16,
    ensures
        s@ == seq![digit_char(d as nat)],
{
    proof {
        reveal_strlit("0");
        reveal_strlit("1");
        reveal_strlit("2");
        reveal_strlit("3");
        reveal_strlit("4");
        reveal_strlit("5");
        reveal_strlit("6");
        reveal_strlit("7");
        reveal_strlit("8");
        reveal_strlit("9");
        reveal_strlit("a");
        reveal_strlit("b");
        reveal_strlit("c");
        reveal_strlit("d");
        reveal_strlit("e");
        reveal_strlit("f");
    }
    let s: &'static str = match d {
        0 => "0",
        1 => "1",
        2 => "2",
        3 => "3",
        4 => "4",
        5 => "5",
        6 => "6",
        7 => "7",
        8 => "8",
        9 => "9",
        10 => "a",
        11 => "b",
        12 => "c",
        13 => "d",
        14 => "e",
        _ => "f",
    };
    assert(s@ =~= seq![digit_char(d as nat)]);
    s
}

/// Appends the digits of a number.
fn append_digits(text: &mut String, n: u64, base: u64)
    requires
        2 <= base <= 16,
    ensures
        final(text)@ == old(text)@ + digits(n as nat, base as nat),
    decreases n,
{
    if n < base {
        text.append(digit_str(n));
    } else {
        proof {
            assert(n / base < n) by (nonlinear_arith)
                requires
                    n >= base,
                    base >= 2,
            ;
            assert(n % base < base) by (nonlinear_arith)
                requires
                    base >= 2,
            ;
        }
        append_digits(text, n / base, base);
        text.append(digit_str(n % base));
        assert(text@ =~= old(text)@ + digits(n as nat, base as nat));
    }
}

/// A number in decimal.
pub fn decimal(n: u64) -> (text: String)
    ensures
        text@ == digits(n as nat, 10),
{
    let mut text: String = String::new();
    append_digits(&mut text, n, 10);
    assert(text@ =~= digits(n as nat, 10));
    text
}

/// An address as text, such as `0x7f00`.
pub open spec fn address_text(address: u64) -> Seq<char> {
    "0x"@ + digits(address as nat, 16)
}

/// An address in hexadecimal, with a leading `0x`.
pub fn format_address(address: u64) -> (text: String)
    ensures
        text@ == address_text(address),
{
    let mut text: String = "0x".to_string();
    append_digits(&mut text, address, 16);
    text
}

/// The number that a text of digits stands for, most significant digit first.
pub open spec fn number_read(text: Seq<char>, base: nat) -> nat
    decreases text.len(),
{
    if text.len() == 0 {
        0
    } else {
        let c = text.last();
        let value = if c <= '9' {
            (c as int - 0x30) as nat
        } else {
            (c as int - 0x57) as nat
        };
        base * number_read(text.drop_last(), base) + value
    }
}

/// A number that is written is read back. It is written without leading zeros, in figures and
/// lower-case letters.
pub proof fn written_digits_are_read_back(n: nat, base: nat)
    requires
        2 <= base <= 16,
    ensures
        number_read(digits(n, base), base) == n,
        digits(n, base).len() > 0,
        n > 0 ==> digits(n, base)[0] != '0',
        n == 0 ==> digits(n, base) == seq!['0'],
        forall|i: int|
            0 <= i < digits(n, base).len() ==> {
                ||| '0' <= #[trigger] digits(n, base)[i] <= '9'
                ||| 'a' <= digits(n, base)[i] <= 'f'
            },
    decreases n,
{
    let text = digits(n, base);
    if n < base {
        assert(text.drop_last() =~= Seq::<char>::empty());
        assert(number_read(text.drop_last(), base) == 0);
        assert(base * 0 == 0) by (nonlinear_arith);
    } else {
        assert(n / base < n && n / base > 0) by (nonlinear_arith)
            requires
                n >= base,
                base >= 2,
        ;
        assert(n % base < base) by (nonlinear_arith)
            requires
                base >= 2,
        ;
        written_digits_are_read_back(n / base, base);
        let shorter = digits(n / base, base);
        assert(text.drop_last() =~= shorter);
        assert(base * (n / base) + n % base == n) by (nonlinear_arith)
            requires
                base >= 2,
        ;
        assert(text[0] == shorter[0]);
        assert forall|i: int| 0 <= i < text.len() implies {
            ||| '0' <= #[trigger] text[i] <= '9'
            ||| 'a' <= text[i] <= 'f'
        } by {
            if i < shorter.len() {
                assert(text[i] == shorter[i]);
            }
        }
    }
}

/// An address is written as `0x` and the address in hexadecimal, so that it is read back, and
/// different addresses are written differently.
pub proof fn written_address_is_read_back(address: u64, other: u64)
    ensures
        address_text(address).len() > 2,
        address_text(address)[0] == '0',
        address_text(address)[1] == 'x',
        number_read(address_text(address).skip(2), 16) == address,
        address_text(address) == address_text(other) ==> address == other,
{
    reveal_strlit("0x");
    written_digits_are_read_back(address as nat, 16);
    written_digits_are_read_back(other as nat, 16);
    assert(address_text(address).skip(2) =~= digits(address as nat, 16));
    assert(address_text(other).skip(2) =~= digits(other as nat, 16));
}

} // verus!
