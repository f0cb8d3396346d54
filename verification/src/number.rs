//! Unsigned numbers in decimal notation.
use vstd::prelude::*;

verus! {

/// The byte of a plus sign.
pub const PLUS: u8 = 0x2b;

/// The byte of the digit zero.
pub const ZERO: u8 = 0x30;

/// The byte of the digit nine.
pub const NINE: u8 = 0x39;

/// The character of a decimal digit.
pub open spec fn digit_char(digit: nat) -> char {
    ('0' as nat + digit) as char
}

/// A number in decimal notation, without a sign and without leading zeros.
pub open spec fn decimal(n: nat) -> Seq<char>
    decreases n,
{
    if n < 10 {
        seq![digit_char(n)]
    } else {
        decimal(n / 10).push(digit_char(n % 10))
    }
}

pub open spec fn is_digit(byte: u8) -> bool {
    ZERO <= byte <= NINE
}

pub open spec fn all_digits(bytes: Seq<u8>) -> bool {
    forall|i: int| 0 <= i < bytes.len() ==> is_digit(#[trigger] bytes[i])
}

/// The number that a sequence of digits denotes.
pub open spec fn digits_value(digits: Seq<u8>) -> nat
    decreases digits.len(),
{
    if digits.len() == 0 {
        0
    } else {
        (digits_value(digits.drop_last()) * 10 + (digits.last() - ZERO)) as nat
    }
}

/// The digits of a numeral, which may begin with a plus sign.
pub open spec fn unsigned_digits(text: Seq<u8>) -> Seq<u8> {
    if text.len() > 0 && text[0] == PLUS {
        text.skip(1)
    } else {
        text
    }
}

/// The number that a numeral denotes: an optional plus sign and at least one digit, nothing else.
pub open spec fn unsigned_value(text: Seq<u8>) -> Option<nat> {
    let digits = unsigned_digits(text);
    if digits.len() > 0 && all_digits(digits) {
        Some(digits_value(digits))
    } else {
        None
    }
}

proof fn lemma_digits_value_prefix(digits: Seq<u8>, i: int)
    requires
        all_digits(digits),
        0 <= i <= digits.len(),
    ensures
        digits_value(digits.take(i)) <= digits_value(digits),
    decreases digits.len(),
{
    if i < digits.len() {
        let init = digits.drop_last();
        assert(init.take(i) =~= digits.take(i));
        assert forall|j: int| 0 <= j < init.len() implies is_digit(#[trigger] init[j]) by {
            assert(init[j] == digits[j]);
        }
        lemma_digits_value_prefix(init, i);
    } else {
        assert(digits.take(i) =~= digits);
    }
}

/// Reads a numeral; `None` for a text that is none and for a number that is too large.
pub fn parse_unsigned(text: &[u8]) -> (value: Option<usize>)
    ensures
        value == (match unsigned_value(text@) {
            Some(n) => if n <= usize::MAX {
                Some(n as usize)
            } else {
                None
            },
            None => None,
        }),
{
    let start: usize = if text.len() > 0 && text[0] == PLUS {
        1
    } else {
        0
    };
    let ghost digits = unsigned_digits(text@);
    assert(digits =~= text@.skip(start as int));
    if start == text.len() {
        return None;
    }
    let mut value: usize = 0;
    let mut i: usize = start;
    assert(digits.take(0) =~= Seq::<u8>::empty());
    while i < text.len()
        invariant
            start <= i <= text.len(),
            digits == unsigned_digits(text@),
            digits == text@.skip(start as int),
            digits.len() > 0,
            forall|j: int| 0 <= j < i - start ==> is_digit(#[trigger] digits[j]),
            value == digits_value(digits.take(i - start)),
        decreases text.len() - i,
    {
        let byte = text[i];
        assert(byte == digits[i - start]);
        if byte < ZERO || byte > NINE {
            return None;
        }
        let ghost next = digits.take(i - start + 1);
        assert(next.drop_last() =~= digits.take(i - start));
        let digit: usize = (byte - ZERO) as usize;
        if value > usize::MAX / 10 || (value == usize::MAX / 10 && digit > usize::MAX % 10) {
            proof {
                assert(digits_value(next) > usize::MAX);
                if all_digits(digits) {
                    lemma_digits_value_prefix(digits, i - start + 1);
                }
            }
            return None;
        }
        value = value * 10 + digit;
        i = i + 1;
    }
    assert(digits.take(i - start) =~= digits);
    Some(value)
}

fn digit_text(digit: usize) -> (text: &'static str)
    requires
        digit < 10,
    ensures
        text@ == seq![digit_char(digit as nat)],
{
    let text = match digit {
        0 => "0",
        1 => "1",
        2 => "2",
        3 => "3",
        4 => "4",
        5 => "5",
        6 => "6",
        7 => "7",
        8 => "8",
        _ => "9",
    };
    proof {
        reveal_strlit("0");
        reveal_strlit("1");
        reveal_strlit("2");
        reveal_strlit("3");
        reveal_strlit("4");
        reveal_strlit("5");
        reveal_strlit("6");
        reveal_strlit("7");
        reveal_strlit("8");
        reveal_strlit("9");
    }
    assert(text@ =~= seq![digit_char(digit as nat)]);
    text
}

/// Writes a number in decimal notation.
pub fn decimal_text(n: usize) -> (text: String)
    ensures
        text@ == decimal(n as nat),
    decreases n,
{
    let mut text = if n < 10 {
        String::new()
    } else {
        decimal_text(n / 10)
    };
    text.append(digit_text(n % 10));
    assert(text@ =~= decimal(n as nat));
    text
}

proof fn lemma_decimal_digits(n: nat)
    ensures
        decimal(n).len() > 0,
        forall|i: int|
            0 <= i < decimal(n).len() ==> '0' <= #[trigger] decimal(n)[i] && decimal(n)[i] <= '9',
    decreases n,
{
    if n >= 10 {
        lemma_decimal_digits(n / 10);
    }
}

/// The bytes of a number in decimal notation.
pub open spec fn decimal_bytes(n: nat) -> Seq<u8> {
    vstd::utf8::encode_utf8(decimal(n))
}

pub proof fn lemma_decimal_bytes(n: nat)
    ensures
        decimal_bytes(n).len() == decimal(n).len(),
        forall|i: int|
            0 <= i < decimal(n).len() ==> #[trigger] decimal_bytes(n)[i] == decimal(n)[i] as u8,
        all_digits(decimal_bytes(n)),
{
    lemma_decimal_digits(n);
    assert(vstd::utf8::is_ascii_chars(decimal(n)));
    vstd::utf8::is_ascii_chars_encode_utf8(decimal(n));
}

proof fn lemma_decimal_value(n: nat)
    ensures
        digits_value(decimal_bytes(n)) == n,
    decreases n,
{
    lemma_decimal_bytes(n);
    let bytes = decimal_bytes(n);
    assert(decimal(n).last() == digit_char(n % 10));
    assert(bytes.last() == decimal(n).last() as u8);
    assert(bytes.last() == ZERO + n % 10);
    if n < 10 {
        assert(digits_value(Seq::<u8>::empty()) == 0);
        assert(bytes.drop_last() =~= Seq::<u8>::empty());
    } else {
        lemma_decimal_value(n / 10);
        lemma_decimal_bytes(n / 10);
        assert(bytes.drop_last() =~= decimal_bytes(n / 10));
    }
}

/// Reading a number back from its decimal notation gives the number.
pub proof fn decimal_reads_back(n: nat)
    ensures
        unsigned_value(decimal_bytes(n)) == Some(n),
{
    lemma_decimal_digits(n);
    lemma_decimal_bytes(n);
    lemma_decimal_value(n);
}

/// The decimal notation of a number below ten is one digit; that of any other is the notation of its
/// tens, followed by the digit of its ones.
pub proof fn decimal_grows_by_a_digit(tens: nat, ones: nat)
    requires
        ones < 10,
    ensures
        decimal(ones) == seq![('0' as nat + ones) as char],
        tens > 0 ==> decimal(10 * tens + ones) == decimal(tens).push(('0' as nat + ones) as char),
{
    assert((10 * tens + ones) / 10 == tens && (10 * tens + ones) % 10 == ones);
}

proof fn lemma_without_sign(text: Seq<u8>)
    requires
        text.len() > 0,
        text[0] != 0x2b,
    ensures
        unsigned_digits(text) == text,
{
}

/// A numeral to which a digit is added denotes ten times the number, and the digit; one to which
/// anything else is added is none.
pub proof fn numeral_grows_by_a_digit(numeral: Seq<u8>, n: nat, byte: u8)
    requires
        unsigned_value(numeral) == Some(n),
    ensures
        unsigned_value(numeral.push(byte)) == if 0x30 <= byte <= 0x39 {
            Some((10 * n + (byte - 0x30)) as nat)
        } else {
            None::<nat>
        },
{
    let digits = unsigned_digits(numeral);
    let more = numeral.push(byte);
    assert(unsigned_digits(more) =~= digits.push(byte));
    assert(digits.push(byte).drop_last() =~= digits);
    if 0x30 <= byte <= 0x39 {
        assert forall|i: int| 0 <= i < digits.push(byte).len() implies is_digit(
            #[trigger] digits.push(byte)[i],
        ) by {
            if i < digits.len() {
                assert(digits.push(byte)[i] == digits[i]);
            }
        }
    } else {
        assert(!is_digit(digits.push(byte)[digits.len() as int]));
    }
}

/// A single digit denotes its number, with a plus sign before it or without; a text that holds
/// anything but digits, after a sign or without one, or no digit at all, denotes none.
pub proof fn only_digits_denote_numbers(text: Seq<u8>, digit: u8)
    requires
        0x30 <= digit <= 0x39,
    ensures
        unsigned_value(seq![digit]) == Some((digit - 0x30) as nat),
        unsigned_value(seq![0x2bu8, digit]) == Some((digit - 0x30) as nat),
        text.len() == 0 ==> unsigned_value(text) is None,
        text == seq![0x2bu8] ==> unsigned_value(text) is None,
        forall|i: int|
            0 <= i < text.len() && !(0x30 <= #[trigger] text[i] <= 0x39) && (i > 0 || text[i]
                != 0x2b) ==> unsigned_value(text) is None,
{
    let one = seq![digit];
    assert(one.drop_last() =~= Seq::<u8>::empty());
    assert(digits_value(Seq::<u8>::empty()) == 0);
    assert(digits_value(one) == digit - 0x30);
    lemma_without_sign(one);
    let signed = seq![0x2bu8, digit];
    assert(signed.skip(1) =~= one);
    assert forall|i: int|
        0 <= i < text.len() && !(0x30 <= #[trigger] text[i] <= 0x39) && (i > 0 || text[i]
            != 0x2b) implies unsigned_value(text) is None by {
        let digits = unsigned_digits(text);
        if text[0] == 0x2b {
            assert(digits[i - 1] == text[i]);
        } else {
            assert(digits[i] == text[i]);
        }
    }
}

} // verus!
