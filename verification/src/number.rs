use vstd::prelude::*;
use vstd::string::{StrSliceExecFns, StringExecFns};
use vstd::utf8::encode_utf8;

verus! {

/// Whether `b` is a decimal digit in ASCII.
pub open spec fn is_digit(b: u8) -> bool {
    0x30 <= b <= 0x39
}

/// Whether all of `digits` are decimal digits.
pub open spec fn all_digits(digits: Seq<u8>) -> bool {
    forall|i: int| 0 <= i < digits.len() ==> is_digit(#[trigger] digits[i])
}

/// The number that decimal digits stand for.
pub open spec fn digits_value(digits: Seq<u8>) -> nat
    decreases digits.len(),
{
    if digits.len() == 0 {
        0
    } else {
        (digits_value(digits.drop_last()) * 10 + (digits.last() - 0x30)) as nat
    }
}

/// The digits of a number as it is written: what follows a plus sign at
/// the front, or the whole text.
pub open spec fn unsigned_part(bytes: Seq<u8>) -> Seq<u8> {
    if bytes.len() > 0 && bytes[0] == 0x2B {
        bytes.skip(1)
    } else {
        bytes
    }
}

/// The number that `text` stands for: decimal digits, with or without a
/// plus sign before them, that give a number up to 65535. Any other text
/// gives 0.
pub open spec fn decimal_u16(text: Seq<char>) -> u16 {
    let digits = unsigned_part(encode_utf8(text));
    if digits.len() > 0 && all_digits(digits) && digits_value(digits) <= u16::MAX {
        digits_value(digits) as u16
    } else {
        0
    }
}

/// A number does not get smaller by a digit behind it.
pub proof fn lemma_digits_grow(digits: Seq<u8>, n: int)
    requires
        all_digits(digits),
        0 <= n <= digits.len(),
    ensures
        digits_value(digits.take(n)) <= digits_value(digits),
    decreases digits.len() - n,
{
    if n < digits.len() {
        lemma_digits_grow(digits, n + 1);
        assert(digits.take(n + 1).drop_last() =~= digits.take(n));
        assert(is_digit(digits[n]));
        assert(digits.take(n + 1).last() == digits[n]);
    } else {
        assert(digits.take(n) =~= digits);
    }
}

/// Reads a number up to 65535 from its decimal digits; a text that is not
/// such a number gives 0.
pub fn parse_u16(text: &str) -> (r: u16)
    ensures
        r == decimal_u16(text@),
{
    let bytes = text.as_bytes();
    let from: usize = if bytes.len() > 0 && bytes[0] == 0x2B {
        1
    } else {
        0
    };
    let ghost digits = unsigned_part(bytes@);
    assert(digits =~= bytes@.skip(from as int));
    if from == bytes.len() {
        return 0;
    }
    let mut value: u32 = 0;
    let mut i: usize = from;
    assert(digits.take(0) =~= Seq::<u8>::empty());
    while i < bytes.len()
        invariant
            from <= i <= bytes@.len(),
            digits == bytes@.skip(from as int),
            digits == unsigned_part(encode_utf8(text@)),
            digits.len() > 0,
            all_digits(digits.take(i - from)),
            value == digits_value(digits.take(i - from)),
            value <= u16::MAX,
        decreases bytes@.len() - i,
    {
        let b = bytes[i];
        proof {
            assert(digits[i - from] == b);
            assert(digits.take(i - from + 1).drop_last() =~= digits.take(i - from));
            assert(digits.take(i - from + 1).last() == b);
        }
        if b < 0x30 || b > 0x39 {
            assert(!all_digits(digits)) by {
                assert(!is_digit(digits[i - from]));
            }
            return 0;
        }
        value = value * 10 + (b - 0x30) as u32;
        assert(all_digits(digits.take(i - from + 1))) by {
            assert forall|k: int| 0 <= k < i - from + 1 implies is_digit(
                #[trigger] digits.take(i - from + 1)[k],
            ) by {
                if k < i - from {
                    assert(digits.take(i - from)[k] == digits[k]);
                }
            }
        }
        if value > 0xFFFF {
            proof {
                if all_digits(digits) {
                    lemma_digits_grow(digits, i - from + 1);
                }
            }
            return 0;
        }
        i += 1;
    }
    assert(digits.take(i - from) =~= digits);
    value as u16
}

/// The decimal digits, each at the place of its value.
pub const DIGITS: &'static str = "0123456789";

/// The decimal digits of `n`, without zeros before them.
pub open spec fn decimal_text(n: nat) -> Seq<char>
    decreases n,
{
    if n < 10 {
        DIGITS@.subrange(n as int, n as int + 1)
    } else {
        decimal_text(n / 10) + DIGITS@.subrange((n % 10) as int, (n % 10) as int + 1)
    }
}

/// Writes a number in decimal digits.
pub fn format_u16(n: u16) -> (r: String)
    ensures
        r@ == decimal_text(n as nat),
    decreases n,
{
    proof {
        reveal_strlit("0123456789");
    }
    if n < 10 {
        DIGITS.substring_ascii(n as usize, n as usize + 1).to_owned()
    } else {
        let mut r = format_u16(n / 10);
        let d = (n % 10) as usize;
        r.append(DIGITS.substring_ascii(d, d + 1));
        r
    }
}

} // verus!
