//! Decimal numbers as text: reading and writing.

use vstd::prelude::*;
use vstd::slice::slice_subrange;

verus! {

/// Whether `c` is one of `0` to `9`.
pub open spec fn is_digit(c: char) -> bool {
    '0' <= c <= '9'
}

/// The number that the digit `c` stands for.
pub open spec fn digit_value(c: char) -> nat {
    (c as u32 - '0' as u32) as nat
}

/// The digit that stands for `d`.
pub open spec fn digit(d: nat) -> char {
    ('0' as u32 + d) as char
}

/// Whether `s` consists of digits only.
pub open spec fn all_digits(s: Seq<char>) -> bool {
    forall|i: int| 0 <= i < s.len() ==> is_digit(#[trigger] s[i])
}

/// The number that the digits `s` stand for, in base ten.
pub open spec fn digits_value(s: Seq<char>) -> nat
    decreases s.len(),
{
    if s.len() == 0 {
        0
    } else {
        10 * digits_value(s.drop_last()) + digit_value(s.last())
    }
}

/// The digits of `n` in base ten, without leading zeros.
pub open spec fn decimal(n: nat) -> Seq<char>
    decreases n,
{
    if n < 10 {
        seq![digit(n)]
    } else {
        decimal(n / 10).push(digit(n % 10))
    }
}

/// `v` in base ten, with a leading `-` where it is negative.
pub open spec fn decimal_int(v: int) -> Seq<char> {
    if v < 0 {
        seq!['-'] + decimal((-v) as nat)
    } else {
        decimal(v as nat)
    }
}

/// The digits of `n`, with zeros in front up to `width` characters.
pub open spec fn padded(n: nat, width: nat) -> Seq<char> {
    let digits = decimal(n);
    if digits.len() < width {
        Seq::new((width - digits.len()) as nat, |i: int| '0') + digits
    } else {
        digits
    }
}

/// The unsigned number that `s` spells: an optional `+` and at least one digit, with
/// a value of at most `max`.
pub open spec fn parse_unsigned(s: Seq<char>, max: nat) -> Option<nat> {
    let digits = if s.len() > 0 && s[0] == '+' {
        s.drop_first()
    } else {
        s
    };
    if digits.len() > 0 && all_digits(digits) && digits_value(digits) <= max {
        Some(digits_value(digits))
    } else {
        None
    }
}

/// The number that `s` spells: an optional sign and at least one digit, with a value
/// that fits in 64 bits.
pub open spec fn parse_signed(s: Seq<char>) -> Option<int> {
    let negative = s.len() > 0 && s[0] == '-';
    let digits = if s.len() > 0 && (s[0] == '+' || s[0] == '-') {
        s.drop_first()
    } else {
        s
    };
    let value = if negative {
        -(digits_value(digits) as int)
    } else {
        digits_value(digits) as int
    };
    if digits.len() > 0 && all_digits(digits) && i64::MIN <= value <= i64::MAX {
        Some(value)
    } else {
        None
    }
}

/// The value of a text of digits, if it is at most `max`.
fn read_digits(s: &[char], max: u64) -> (value: Option<u64>)
    ensures
        match value {
            Some(v) => s@.len() > 0 && all_digits(s@) && v == digits_value(s@) && v <= max,
            None => s@.len() == 0 || !all_digits(s@) || digits_value(s@) > max,
        },
{
    if s.len() == 0 {
        return None;
    }
    let mut value: u64 = 0;
    let mut over: bool = false;
    for i in 0..s.len()
        invariant
            forall|j: int| 0 <= j < i ==> is_digit(#[trigger] s@[j]),
            !over ==> value == digits_value(s@.take(i as int)) && value <= max,
            over ==> digits_value(s@.take(i as int)) > max,
    {
        let c = s[i];
        if !('0' <= c && c <= '9') {
            assert(!is_digit(s@[i as int]));
            return None;
        }
        let d: u64 = (c as u32 - '0' as u32) as u64;
        assert(s@.take(i + 1).drop_last() =~= s@.take(i as int));
        if !over {
            if d > max || value > (max - d) / 10 {
                over = true;
            } else {
                value = value * 10 + d;
            }
        }
    }
    assert(s@.take(s@.len() as int) =~= s@);
    if over {
        None
    } else {
        Some(value)
    }
}

/// The unsigned number of at most `max` that `s` spells.
pub fn read_unsigned(s: &[char], max: u64) -> (value: Option<u64>)
    ensures
        match value {
            Some(v) => parse_unsigned(s@, max as nat) == Some(v as nat),
            None => parse_unsigned(s@, max as nat) is None,
        },
{
    if s.len() > 0 && s[0] == '+' {
        let digits = slice_subrange(s, 1, s.len());
        assert(digits@ =~= s@.drop_first());
        read_digits(digits, max)
    } else {
        read_digits(s, max)
    }
}

/// The 64-bit number that `s` spells.
pub fn read_signed(s: &[char]) -> (value: Option<i64>)
    ensures
        match value {
            Some(v) => parse_signed(s@) == Some(v as int),
            None => parse_signed(s@) is None,
        },
{
    if s.len() > 0 && s[0] == '-' {
        let digits = slice_subrange(s, 1, s.len());
        assert(digits@ =~= s@.drop_first());
        match read_digits(digits, 0x8000_0000_0000_0000) {
            Some(v) => {
                if v == 0x8000_0000_0000_0000 {
                    Some(i64::MIN)
                } else {
                    Some(-(v as i64))
                }
            },
            None => None,
        }
    } else if s.len() > 0 && s[0] == '+' {
        let digits = slice_subrange(s, 1, s.len());
        assert(digits@ =~= s@.drop_first());
        match read_digits(digits, i64::MAX as u64) {
            Some(v) => Some(v as i64),
            None => None,
        }
    } else {
        match read_digits(s, i64::MAX as u64) {
            Some(v) => Some(v as i64),
            None => None,
        }
    }
}

/// The digits of `n`.
pub fn write_unsigned(n: u128) -> (s: Vec<char>)
    ensures
        s@ == decimal(n as nat),
    decreases n,
{
    let d: u8 = (n % 10) as u8;
    let c = (48u8 + d) as char;
    assert(c == digit((n % 10) as nat));
    if n < 10 {
        let mut s: Vec<char> = Vec::new();
        s.push(c);
        assert(s@ =~= seq![c]);
        s
    } else {
        let mut s = write_unsigned(n / 10);
        s.push(c);
        s
    }
}

/// `v` in base ten.
pub fn write_signed(v: i64) -> (s: Vec<char>)
    ensures
        s@ == decimal_int(v as int),
{
    if v < 0 {
        let magnitude: u128 = (-(v as i128)) as u128;
        let digits = write_unsigned(magnitude);
        let mut s: Vec<char> = Vec::new();
        s.push('-');
        crate::text::append_chars(&mut s, digits.as_slice());
        assert(s@ =~= seq!['-'] + digits@);
        s
    } else {
        write_unsigned(v as u128)
    }
}

/// The digits of `n`, with zeros in front up to `width` characters.
pub fn write_padded(n: u128, width: usize) -> (s: Vec<char>)
    ensures
        s@ == padded(n as nat, width as nat),
{
    let digits = write_unsigned(n);
    let mut s: Vec<char> = Vec::new();
    if digits.len() < width {
        let zeros: usize = width - digits.len();
        for i in 0..zeros
            invariant
                s@ == Seq::new(i as nat, |j: int| '0'),
        {
            s.push('0');
            assert(s@ =~= Seq::new((i + 1) as nat, |j: int| '0'));
        }
    }
    crate::text::append_chars(&mut s, digits.as_slice());
    assert(s@ =~= padded(n as nat, width as nat));
    s
}

/// Digits are read back as the number they were written for.
pub proof fn lemma_decimal_value(n: nat)
    ensures
        decimal(n).len() > 0,
        all_digits(decimal(n)),
        digits_value(decimal(n)) == n,
    decreases n,
{
    if n < 10 {
        reveal_with_fuel(digits_value, 2);
        assert(decimal(n).drop_last() =~= Seq::<char>::empty());
    } else {
        lemma_decimal_value(n / 10);
        assert(decimal(n).drop_last() =~= decimal(n / 10));
    }
}

/// Reading what was written gives the number back.
pub proof fn lemma_parse_signed_of_decimal_int(v: int)
    requires
        i64::MIN <= v <= i64::MAX,
    ensures
        parse_signed(decimal_int(v)) == Some(v),
{
    if v < 0 {
        let digits = decimal((-v) as nat);
        lemma_decimal_value((-v) as nat);
        assert((seq!['-'] + digits).drop_first() =~= digits);
    } else {
        lemma_decimal_value(v as nat);
        assert(is_digit(decimal(v as nat)[0]));
    }
}

} // verus!
