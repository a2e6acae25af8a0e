//! Names that nobody can guess.
use super::stream::zeroed;
use vstd::arithmetic::div_mod::{lemma_div_decreases, lemma_small_mod};
use vstd::prelude::*;
use vstd::string::StringExecFns;
use vstd::utf8::{encode_utf8, is_ascii_chars, is_ascii_chars_encode_utf8};

verus! {

/// What the source of random bytes says about a failure of its own, by the number of the
/// failure: what a `getrandom::Error` displays that does not come from the system.
pub uninterp spec fn cause_text(code: u32) -> Seq<char>;

/// `getrandom::getrandom` overwrites the bytes that it is given with random ones, and
/// changes nothing else: there are as many as before. It succeeds on no bytes at all. The
/// number of its error is not zero. Which bytes come, whether the system has any, and
/// which number a failure has, is left to the system.
#[verifier::external_body]
fn fill(dest: &mut [u8]) -> (result: Result<(), u32>)
    ensures
        final(dest)@.len() == old(dest)@.len(),
        old(dest)@.len() == 0 ==> result is Ok,
        result matches Err(code) ==> code != 0,
{
    match getrandom::getrandom(dest) {
        Ok(()) => Ok(()),
        Err(error) => Err(error.code().get()),
    }
}

/// What the `getrandom::Error` of a number displays. From the upper half of the numbers
/// on, which are the crate's own, that depends on the number alone. Below lie the errors
/// of the system, and the system words them in the language that it is set to, so nothing
/// is said of their text.
#[verifier::external_body]
pub(crate) fn cause(code: u32) -> (text: String)
    requires
        code != 0,
    ensures
        code >= 0x8000_0000 ==> text@ == cause_text(code),
{
    getrandom::Error::from(core::num::NonZeroU32::new(code).unwrap()).to_string()
}

/// Random bytes of the system, or the number of the failure if it has none.
pub fn random_bytes(count: usize) -> (token: Result<Vec<u8>, u32>)
    ensures
        token matches Ok(bytes) ==> bytes@.len() == count,
        token matches Err(code) ==> code != 0,
        count == 0 ==> token is Ok,
{
    let mut token: Vec<u8> = zeroed(count);
    match fill(token.as_mut_slice()) {
        Ok(()) => Ok(token),
        Err(code) => Err(code),
    }
}

/// The digit of a number below sixteen.
pub open spec fn digit(value: int) -> char {
    if value == 0 {
        '0'
    } else if value == 1 {
        '1'
    } else if value == 2 {
        '2'
    } else if value == 3 {
        '3'
    } else if value == 4 {
        '4'
    } else if value == 5 {
        '5'
    } else if value == 6 {
        '6'
    } else if value == 7 {
        '7'
    } else if value == 8 {
        '8'
    } else if value == 9 {
        '9'
    } else if value == 10 {
        'a'
    } else if value == 11 {
        'b'
    } else if value == 12 {
        'c'
    } else if value == 13 {
        'd'
    } else if value == 14 {
        'e'
    } else {
        'f'
    }
}

/// The digits of a number in some base.
pub open spec fn numeral(value: nat, base: nat) -> Seq<char>
    decreases value,
{
    if value < base || base < 2 {
        seq![digit(value as int)]
    } else {
        proof {
            lemma_div_decreases(value as int, base as int);
        }
        numeral(value / base, base).push(digit((value % base) as int))
    }
}

/// The digits of bytes, the upper half of each byte first.
pub open spec fn hex_digits(bytes: Seq<u8>) -> Seq<char> {
    Seq::new(
        (2 * bytes.len()) as nat,
        |i: int|
            if i % 2 == 0 {
                digit(bytes[i / 2] as int / 16)
            } else {
                digit(bytes[i / 2] as int % 16)
            },
    )
}

/// The digit of a number below sixteen, as text.
fn digit_text(value: u8) -> (text: &'static str)
    requires
        value < 16,
    ensures
        text@ == seq![digit(value as int)],
{
    let text: &'static str = match value {
        0 => "0",
        1 => "1",
        2 => "2",
        3 => "3",
        4 => "4",
        5 => "5",
        6 => "6",
        7 => "7",
        8 => "8",
        9 => "9",
        10 => "a",
        11 => "b",
        12 => "c",
        13 => "d",
        14 => "e",
        _ => "f",
    };
    proof {
        reveal_strlit("0");
        reveal_strlit("1");
        reveal_strlit("2");
        reveal_strlit("3");
        reveal_strlit("4");
        reveal_strlit("5");
        reveal_strlit("6");
        reveal_strlit("7");
        reveal_strlit("8");
        reveal_strlit("9");
        reveal_strlit("a");
        reveal_strlit("b");
        reveal_strlit("c");
        reveal_strlit("d");
        reveal_strlit("e");
        reveal_strlit("f");
        assert(text@ =~= seq![digit(value as int)]);
    }
    text
}

/// The digits of a number in some base, as text.
pub fn numeral_text(value: u64, base: u64) -> (text: String)
    requires
        2 <= base <= 16,
    ensures
        text@ == numeral(value as nat, base as nat),
    decreases value,
{
    let mut text: String = if value < base {
        String::new()
    } else {
        proof {
            lemma_div_decreases(value as int, base as int);
        }
        numeral_text(value / base, base)
    };
    let ghost before = text@;
    text.append(digit_text((value % base) as u8));
    proof {
        if value < base {
            lemma_small_mod(value as nat, base as nat);
            assert(text@ =~= seq![digit(value as int)]);
        } else {
            assert(text@ =~= before.push(digit((value % base) as int)));
        }
    }
    text
}

/// The digits of a number are plain letters and numbers.
pub proof fn lemma_numeral_is_ascii(value: nat, base: nat)
    requires
        2 <= base,
    ensures
        is_ascii_chars(numeral(value, base)),
    decreases value,
{
    if value >= base {
        lemma_div_decreases(value as int, base as int);
        lemma_numeral_is_ascii(value / base, base);
        let front = numeral(value / base, base);
        let all = numeral(value, base);
        assert forall|i: int| 0 <= i < all.len() implies '\0' <= #[trigger] all[i] <= '\u{7f}' by {
            if i < front.len() {
                assert(all[i] == front[i]);
            }
        }
    }
}

/// A number of 32 bits has at most ten decimal digits.
pub proof fn lemma_decimal_len(value: u32)
    ensures
        0 < numeral(value as nat, 10).len() <= 10,
{
    reveal_with_fuel(numeral, 11);
}

/// A number of 64 bits has at most sixteen hexadecimal digits.
pub proof fn lemma_hexadecimal_len(value: u64)
    ensures
        0 < numeral(value as nat, 16).len() <= 16,
{
    reveal_with_fuel(numeral, 17);
}

/// The digits of bytes.
pub fn hex(bytes: &[u8]) -> (text: String)
    ensures
        text@ == hex_digits(bytes@),
{
    let mut text: String = String::new();
    let len: usize = bytes.len();
    let mut k: usize = 0;
    assert(text@ =~= hex_digits(bytes@.take(0)));
    while k < len
        invariant
            k <= len,
            len == bytes@.len(),
            text@ == hex_digits(bytes@.take(k as int)),
        decreases len - k,
    {
        let byte: u8 = bytes[k];
        let ghost before = text@;
        text.append(digit_text(byte / 16));
        text.append(digit_text(byte % 16));
        k = k + 1;
        proof {
            let next = hex_digits(bytes@.take(k as int));
            assert(text@.len() == next.len());
            assert forall|i: int| 0 <= i < next.len() implies text@[i] == next[i] by {
                if i < before.len() {
                    assert(before[i] == hex_digits(bytes@.take(k - 1))[i]);
                }
            }
            assert(text@ =~= next);
        }
    }
    assert(bytes@.take(len as int) =~= bytes@);
    text
}

/// Digits are plain letters and numbers, one byte each.
pub proof fn lemma_hex_digits(bytes: Seq<u8>)
    ensures
        is_ascii_chars(hex_digits(bytes)),
        encode_utf8(hex_digits(bytes)).len() == 2 * bytes.len(),
        forall|i: int|
            0 <= i < 2 * bytes.len() ==> {
                let c = #[trigger] hex_digits(bytes)[i];
                '0' <= c <= '9' || 'a' <= c <= 'f'
            },
{
    assert(is_ascii_chars(hex_digits(bytes)));
    is_ascii_chars_encode_utf8(hex_digits(bytes));
}


/// The number that a digit stands for.
pub open spec fn digit_value(c: char) -> int {
    if '0' <= c <= '9' {
        c as int - '0' as int
    } else {
        10 + (c as int - 'a' as int)
    }
}

/// The number that digits stand for in some base, the first digit counting most.
pub open spec fn reading(digits: Seq<char>, base: int) -> int
    decreases digits.len(),
{
    if digits.len() == 0 {
        0
    } else {
        reading(digits.drop_last(), base) * base + digit_value(digits.last())
    }
}

/// Writing a number down loses nothing: read as digits, its numeral is the number again, and
/// without a leading zero.
pub proof fn law_numerals_read_as_their_number(value: nat, base: nat)
    requires
        2 <= base <= 16,
    ensures
        reading(numeral(value, base), base as int) == value,
        numeral(value, base).len() > 0,
        numeral(value, base).len() > 1 ==> numeral(value, base)[0] != '0',
        value > 0 ==> numeral(value, base)[0] != '0',
    decreases value,
{
    reveal_with_fuel(reading, 2);
    if value < base {
        assert(numeral(value, base).drop_last() =~= Seq::<char>::empty());
    } else {
        lemma_div_decreases(value as int, base as int);
        let front = numeral(value / base, base);
        law_numerals_read_as_their_number(value / base, base);
        let all = numeral(value, base);
        assert(all.drop_last() =~= front);
        assert(all.last() == digit((value % base) as int));
        vstd::arithmetic::div_mod::lemma_fundamental_div_mod(value as int, base as int);
        vstd::arithmetic::div_mod::lemma_mod_bound(value as int, base as int);
        assert((value / base) * base + value % base == value) by (nonlinear_arith)
            requires
                value as int == base as int * (value as int / base as int) + value as int
                    % base as int,
        ;
        assert(value / base > 0) by (nonlinear_arith)
            requires
                value >= base,
                base >= 2,
        ;
        assert(all[0] == front[0]);
    }
}

/// The digits of bytes tell the bytes: each byte has two of them, and different bytes have
/// different digits.
pub proof fn law_hex_digits_tell_their_bytes(a: Seq<u8>, b: Seq<u8>)
    ensures
        hex_digits(a).len() == 2 * a.len(),
        hex_digits(a) == hex_digits(b) ==> a == b,
        forall|i: int|
            0 <= i < a.len() ==> #[trigger] a[i] == 16 * digit_value(hex_digits(a)[2 * i])
                + digit_value(hex_digits(a)[2 * i + 1]),
{
    assert forall|i: int| 0 <= i < a.len() implies #[trigger] a[i] == 16 * digit_value(
        hex_digits(a)[2 * i],
    ) + digit_value(hex_digits(a)[2 * i + 1]) by {
        lemma_byte_digits(a, i);
    }
    if hex_digits(a) == hex_digits(b) {
        assert(hex_digits(a).len() == hex_digits(b).len());
        assert forall|i: int| 0 <= i < a.len() implies #[trigger] a[i] == b[i] by {
            lemma_byte_digits(a, i);
            lemma_byte_digits(b, i);
        }
        assert(a =~= b);
    }
}

proof fn lemma_byte_digits(bytes: Seq<u8>, i: int)
    requires
        0 <= i < bytes.len(),
    ensures
        bytes[i] == 16 * digit_value(hex_digits(bytes)[2 * i]) + digit_value(
            hex_digits(bytes)[2 * i + 1],
        ),
{
    assert((2 * i) / 2 == i && (2 * i + 1) / 2 == i);
    assert((2 * i) % 2 == 0 && (2 * i + 1) % 2 == 1);
}

} // verus!
