//! What reading a text gives for texts that are put together from known parts.

use crate::{number, text};
use vstd::prelude::*;

verus! {

/// Whether every character of a text is white space.
pub open spec fn is_gap(s: Seq<char>) -> bool {
    forall|i: int| 0 <= i < s.len() ==> text::is_white(#[trigger] s[i])
}

/// Whether a text holds a character and no white space.
pub open spec fn is_word(s: Seq<char>) -> bool {
    s.len() > 0 && forall|i: int| 0 <= i < s.len() ==> !text::is_white(#[trigger] s[i])
}

/// Whether a text neither starts nor ends in white space.
pub open spec fn is_core(s: Seq<char>) -> bool {
    s.len() > 0 ==> !text::is_white(s[0]) && !text::is_white(s.last())
}

/// White space in front is taken off, and nothing else.
pub proof fn leading_gap_is_trimmed(gap: Seq<char>, core: Seq<char>)
    requires
        is_gap(gap),
        core.len() > 0 ==> !text::is_white(core[0]),
    ensures
        text::trim_start(gap + core) == core,
    decreases gap.len(),
{
    let s = gap + core;
    if gap.len() == 0 {
        assert(s =~= core);
    } else {
        assert(text::is_white(gap[0]));
        assert forall|i: int| 0 <= i < gap.drop_first().len() implies text::is_white(
            #[trigger] gap.drop_first()[i],
        ) by {
            assert(text::is_white(gap[i + 1]));
        }
        leading_gap_is_trimmed(gap.drop_first(), core);
        assert(s.drop_first() =~= gap.drop_first() + core);
    }
}

/// White space behind is taken off, and nothing else.
pub proof fn trailing_gap_is_trimmed(core: Seq<char>, gap: Seq<char>)
    requires
        is_gap(gap),
        core.len() > 0 ==> !text::is_white(core.last()),
    ensures
        text::trim_end(core + gap) == core,
    decreases gap.len(),
{
    let s = core + gap;
    if gap.len() == 0 {
        assert(s =~= core);
    } else {
        assert(text::is_white(gap[gap.len() - 1]));
        assert forall|i: int| 0 <= i < gap.drop_last().len() implies text::is_white(
            #[trigger] gap.drop_last()[i],
        ) by {
            assert(text::is_white(gap[i]));
        }
        trailing_gap_is_trimmed(core, gap.drop_last());
        assert(s.drop_last() =~= core + gap.drop_last());
    }
}

/// Trimming takes the white space off both ends of a text, and nothing else.
pub proof fn gaps_are_trimmed(before: Seq<char>, core: Seq<char>, after: Seq<char>)
    requires
        is_gap(before),
        is_core(core),
        is_gap(after),
    ensures
        text::trim(before + core + after) == core,
{
    let s = before + core + after;
    if core.len() == 0 {
        let gap = before + after;
        assert forall|i: int| 0 <= i < gap.len() implies text::is_white(#[trigger] gap[i]) by {
            if i < before.len() {
                assert(text::is_white(before[i]));
            } else {
                assert(text::is_white(after[i - before.len()]));
            }
        }
        leading_gap_is_trimmed(gap, core);
        assert(s =~= gap + core);
    } else {
        leading_gap_is_trimmed(before, core + after);
        assert(s =~= before + (core + after));
        trailing_gap_is_trimmed(core, after);
    }
}

/// A text that neither starts nor ends in white space is trimmed to itself.
pub proof fn core_is_kept(core: Seq<char>)
    requires
        is_core(core),
    ensures
        text::trim(core) == core,
        text::trim_start(core) == core,
        text::trim_end(core) == core,
{
    let none = Seq::<char>::empty();
    gaps_are_trimmed(none, core, none);
    assert(none + core + none =~= core);
}

/// Words with one white character between them are read as these words.
pub proof fn spaced_words_are_read(list: Seq<Seq<char>>, sep: char)
    requires
        text::is_white(sep),
        forall|i: int| 0 <= i < list.len() ==> is_word(#[trigger] list[i]),
    ensures
        text::words(text::join(list, seq![sep])) == list,
        list.len() > 0 ==> text::join(list, seq![sep]).len() > 0 && !text::is_white(
            text::join(list, seq![sep])[0],
        ),
    decreases list.len(),
{
    let s = text::join(list, seq![sep]);
    if list.len() == 0 {
        assert(list =~= Seq::<Seq<char>>::empty());
    } else {
        let first = list[0];
        let n = first.len() as int;
        assert(is_word(first));
        assert(!text::is_white(first[0]));
        if list.len() == 1 {
            text::lemma_word_len_is(s, n);
            assert(s.take(n) =~= first);
            assert(s.skip(n) =~= Seq::<char>::empty());
            assert(text::words(s.skip(n)) =~= Seq::<Seq<char>>::empty());
            assert(text::words(s) =~= list);
        } else {
            let others = list.drop_first();
            assert forall|i: int| 0 <= i < others.len() implies is_word(#[trigger] others[i]) by {
                assert(others[i] == list[i + 1]);
            }
            spaced_words_are_read(others, sep);
            let rest = text::join(others, seq![sep]);
            assert(s =~= first + seq![sep] + rest);
            assert forall|i: int| 0 <= i < n implies !text::is_white(#[trigger] s[i]) by {
                assert(s[i] == first[i]);
            }
            text::lemma_word_len_is(s, n);
            assert(s.take(n) =~= first);
            let tail = s.skip(n);
            assert(tail =~= seq![sep] + rest);
            leading_gap_is_trimmed(seq![sep], rest);
            text::lemma_trim_start_again(tail);
            assert(list =~= seq![first] + others);
        }
    }
}

/// White space before the first word does not count.
pub proof fn leading_gap_holds_no_word(gap: Seq<char>, s: Seq<char>)
    requires
        is_gap(gap),
    ensures
        text::words(gap + s) == text::words(s),
    decreases gap.len(),
{
    if gap.len() == 0 {
        assert(gap + s =~= s);
    } else {
        let rest = gap.drop_first();
        assert(text::is_white(gap[0]));
        assert forall|i: int| 0 <= i < rest.len() implies text::is_white(#[trigger] rest[i]) by {
            assert(text::is_white(gap[i + 1]));
        }
        leading_gap_holds_no_word(rest, s);
        assert((gap + s).drop_first() =~= rest + s);
        assert(text::trim_start(gap + s) == text::trim_start(rest + s));
        text::lemma_trim_start_again(gap + s);
        text::lemma_trim_start_again(rest + s);
    }
}

/// Parts that do not hold the separator are found again in the text with the separator
/// between them.
pub proof fn separated_parts_are_read(list: Seq<Seq<char>>, c: char)
    requires
        list.len() > 0,
        forall|i: int| 0 <= i < list.len() ==> !(#[trigger] list[i]).contains(c),
    ensures
        text::split(text::join(list, seq![c]), c) == list,
    decreases list.len(),
{
    let s = text::join(list, seq![c]);
    let first = list[0];
    let n = first.len() as int;
    assert(!list[0].contains(c));
    assert forall|i: int| 0 <= i < n implies first[i] != c by {
        if first[i] == c {
            assert(first.contains(c));
        }
    }
    if list.len() == 1 {
        text::lemma_before_is(s, c, n);
        assert(text::split(s, c) =~= list);
    } else {
        let others = list.drop_first();
        assert forall|i: int| 0 <= i < others.len() implies !(#[trigger] others[i]).contains(c) by {
            assert(others[i] == list[i + 1]);
        }
        separated_parts_are_read(others, c);
        assert(s =~= first + seq![c] + text::join(others, seq![c]));
        text::lemma_before_is(s, c, n);
        assert(s.take(n) =~= first);
        assert(s.skip(n + 1) =~= text::join(others, seq![c]));
        assert(list =~= seq![first] + others);
    }
}

/// The first separator parts a text; without one it is not parted.
pub proof fn first_separator_parts(a: Seq<char>, c: char, b: Seq<char>)
    requires
        !a.contains(c),
    ensures
        text::split_once(a + seq![c] + b, c) == Some((a, b)),
        text::split_once(a, c) is None,
{
    let s = a + seq![c] + b;
    let n = a.len() as int;
    assert forall|i: int| 0 <= i < n implies s[i] != c && a[i] != c by {
        if a[i] == c {
            assert(a.contains(c));
        }
    }
    text::lemma_before_is(s, c, n);
    text::lemma_before_is(a, c, n);
    assert(s.take(n) =~= a);
    assert(s.skip(n + 1) =~= b);
}

/// What stands behind the last separator is what follows it; without one it is all.
pub proof fn last_separator_parts(a: Seq<char>, c: char, b: Seq<char>)
    requires
        !b.contains(c),
    ensures
        text::behind_last(a + seq![c] + b, c) == b,
        text::behind_last(b, c) == b,
{
    let s = a + seq![c] + b;
    let n = a.len() as int + 1;
    assert forall|i: int| n <= i < s.len() implies #[trigger] s[i] != c by {
        if s[i] == c {
            assert(b[i - n] == c);
            assert(b.contains(c));
        }
    }
    assert forall|i: int| 0 <= i < b.len() implies #[trigger] b[i] != c by {
        if b[i] == c {
            assert(b.contains(c));
        }
    }
    text::lemma_behind_last(s, c, n);
    text::lemma_behind_last(b, c, 0);
    assert(s.skip(n) =~= b);
    assert(b.skip(0) =~= b);
}

/// A text starts with its beginning and ends with its end, and with nothing else.
pub proof fn ends_are_found(a: Seq<char>, b: Seq<char>)
    ensures
        text::starts_with(a + b, a),
        text::ends_with(a + b, b),
        text::starts_with(a, b) ==> a == b + a.skip(b.len() as int),
        text::ends_with(a, b) ==> a == a.take(a.len() - b.len()) + b,
{
    assert((a + b).take(a.len() as int) =~= a);
    assert((a + b).skip(a.len() as int) =~= b);
    if text::starts_with(a, b) {
        assert(a =~= b + a.skip(b.len() as int));
    }
    if text::ends_with(a, b) {
        assert(a =~= a.take(a.len() - b.len()) + b);
    }
}

/// The first line of a text ends at its first line feed; a carriage return before that
/// does not belong to it. The other lines are those of the rest.
pub proof fn first_line_is_read(line: Seq<char>, rest: Seq<char>)
    requires
        !line.contains('\n'),
    ensures
        text::lines(line + seq!['\n'] + rest) == seq![
            if line.len() > 0 && line.last() == '\r' {
                line.drop_last()
            } else {
                line
            },
        ] + text::lines(rest),
        line.len() > 0 ==> text::lines(line) == seq![line],
{
    let s = line + seq!['\n'] + rest;
    let n = line.len() as int;
    assert forall|i: int| 0 <= i < n implies s[i] != '\n' && line[i] != '\n' by {
        if line[i] == '\n' {
            assert(line.contains('\n'));
        }
    }
    text::lemma_before_is(s, '\n', n);
    text::lemma_before_is(line, '\n', n);
    assert(s.take(n) =~= line);
    assert(s.skip(n + 1) =~= rest);
}

/// The digits of a number are a word of digits, without a leading zero unless it is all.
pub proof fn decimals_are_words(n: nat)
    ensures
        is_word(number::decimal(n)),
        forall|i: int|
            0 <= i < number::decimal(n).len() ==> '0' <= #[trigger] number::decimal(n)[i] <= '9',
        n > 0 ==> number::decimal(n)[0] != '0',
    decreases n,
{
    number::lemma_decimal_value(n);
    assert forall|i: int| 0 <= i < number::decimal(n).len() implies !text::is_white(
        #[trigger] number::decimal(n)[i],
    ) && '0' <= number::decimal(n)[i] <= '9' by {
        assert(number::is_digit(number::decimal(n)[i]));
    }
    if n >= 10 {
        decimals_are_words(n / 10);
    }
}

/// The digits of a number, with or without a sign of plus, are read as that number where
/// it is in range, and are refused where it is not.
pub proof fn decimals_are_read(n: nat, max: nat)
    ensures
        number::parse_unsigned(number::decimal(n), max) == if n <= max {
            Some(n)
        } else {
            None
        },
        number::parse_unsigned(seq!['+'] + number::decimal(n), max) == if n <= max {
            Some(n)
        } else {
            None
        },
{
    number::lemma_decimal_value(n);
    let digits = number::decimal(n);
    assert(number::is_digit(digits[0]));
    assert((seq!['+'] + digits).drop_first() =~= digits);
}

/// A signed number is read as that number where it fits in 64 bits, and is refused where
/// it does not.
pub proof fn signed_decimals_are_read(v: int)
    ensures
        number::parse_signed(number::decimal_int(v)) == if -0x8000_0000_0000_0000 <= v
            <= 0x7fff_ffff_ffff_ffff {
            Some(v)
        } else {
            None
        },
        v >= 0 ==> number::parse_signed(seq!['+'] + number::decimal(v as nat))
            == number::parse_signed(number::decimal(v as nat)),
{
    let digits = number::decimal((if v < 0 {
        -v
    } else {
        v
    }) as nat);
    number::lemma_decimal_value((if v < 0 {
        -v
    } else {
        v
    }) as nat);
    assert(number::is_digit(digits[0]));
    assert((seq!['-'] + digits).drop_first() =~= digits);
    assert((seq!['+'] + digits).drop_first() =~= digits);
}

/// A text is no number if it is empty, or if any character but a sign at its start is no
/// digit.
pub proof fn other_texts_are_no_numbers(s: Seq<char>, i: int, max: nat)
    requires
        s.len() == 0 || (0 <= i < s.len() && !('0' <= s[i] <= '9') && (i > 0 || (s[0] != '+'
            && s[0] != '-'))),
    ensures
        number::parse_unsigned(s, max) is None,
        number::parse_signed(s) is None,
{
    if s.len() > 0 {
        assert(!number::is_digit(s[i]));
        if i > 0 {
            assert(s.drop_first()[i - 1] == s[i]);
        }
    }
}

/// A sign of minus is refused where no sign is allowed.
pub proof fn negative_texts_are_not_unsigned(s: Seq<char>, max: nat)
    requires
        s.len() > 0,
        s[0] == '-',
    ensures
        number::parse_unsigned(s, max) is None,
{
    assert(!number::is_digit(s[0]));
}

proof fn lemma_zeros_value(k: nat, digits: Seq<char>)
    ensures
        number::digits_value(Seq::new(k, |i: int| '0') + digits) == number::digits_value(digits),
    decreases k + digits.len(),
{
    let zeros = Seq::new(k, |i: int| '0');
    let s = zeros + digits;
    if digits.len() > 0 {
        lemma_zeros_value(k, digits.drop_last());
        assert(s.drop_last() =~= zeros + digits.drop_last());
    } else if k > 0 {
        lemma_zeros_value((k - 1) as nat, digits);
        assert(s.drop_last() =~= Seq::new((k - 1) as nat, |i: int| '0') + digits);
        assert(s.last() == '0');
    }
}

/// A padded number has its width, or more where it needs more, and is read as the number.
pub proof fn padded_numbers_are_read(n: nat, width: nat, max: nat)
    requires
        n <= max,
    ensures
        number::padded(n, width).len() >= width,
        number::decimal(n).len() <= width ==> number::padded(n, width).len() == width,
        number::decimal(n).len() >= width ==> number::padded(n, width) == number::decimal(n),
        number::parse_unsigned(number::padded(n, width), max) == Some(n),
        n <= 0x7fff_ffff_ffff_ffff ==> number::parse_signed(number::padded(n, width)) == Some(
            n as int,
        ),
        n <= 0x8000_0000_0000_0000 ==> number::parse_signed(seq!['-'] + number::padded(n, width))
            == Some(-(n as int)),
{
    let digits = number::decimal(n);
    number::lemma_decimal_value(n);
    assert(number::is_digit(digits[0]));
    assert((seq!['-'] + number::padded(n, width)).drop_first() =~= number::padded(n, width));
    decimals_are_read(n, max);
    if digits.len() < width {
        let k = (width - digits.len()) as nat;
        let s = number::padded(n, width);
        lemma_zeros_value(k, digits);
        assert forall|i: int| 0 <= i < s.len() implies number::is_digit(#[trigger] s[i]) by {
            if i >= k {
                assert(number::is_digit(digits[i - k]));
            }
        }
        assert(s[0] == '0');
    }
}

/// White space is what has that property in Unicode: among the characters of ASCII the
/// space and the controls from the tab to the carriage return, and a few others.
pub proof fn white_space_of_unicode(c: char)
    ensures
        c as u32 <= 0x7f ==> (text::is_white(c) <==> c == ' ' || 0x09 <= c as u32 <= 0x0d),
        0x80 <= c as u32 <= 0xff ==> (text::is_white(c) <==> c as u32 == 0x85 || c as u32 == 0xa0),
        0x100 <= c as u32 <= 0x1fff ==> (text::is_white(c) <==> c as u32 == 0x1680),
        0x2000 <= c as u32 <= 0x20ff ==> (text::is_white(c) <==> c as u32 <= 0x200a || c as u32
            == 0x2028 || c as u32 == 0x2029 || c as u32 == 0x202f || c as u32 == 0x205f),
        0x2100 <= c as u32 ==> (text::is_white(c) <==> c as u32 == 0x3000),
{
}

/// Texts that are joined stand one behind the other, with the separator between each two.
pub proof fn joined_texts_stand_in_order(list: Seq<Seq<char>>, sep: Seq<char>, last: Seq<char>)
    ensures
        text::join(Seq::empty(), sep).len() == 0,
        text::join(seq![last], sep) == last,
        list.len() > 0 ==> text::join(list.push(last), sep) == text::join(list, sep) + sep + last,
{
    text::lemma_join_push(list, sep, last);
}

/// A padded number is its digits with zeros before them.
pub proof fn padding_is_made_of_zeros(n: nat, width: nat)
    ensures
        exists|zeros: Seq<char>|
            number::padded(n, width) == #[trigger] (zeros + number::decimal(n)) && forall|i: int|
                0 <= i < zeros.len() ==> #[trigger] zeros[i] == '0',
{
    let digits = number::decimal(n);
    let k = number::padded(n, width).len() - digits.len();
    let zeros = Seq::new(k as nat, |i: int| '0');
    assert(number::padded(n, width) =~= zeros + digits);
}

/// The bytes of a text are those of its characters, one to four each.
pub proof fn bytes_add_up(a: Seq<char>, b: Seq<char>, c: char)
    ensures
        text::byte_len(a + b) == text::byte_len(a) + text::byte_len(b),
        text::byte_len(Seq::empty()) == 0,
        text::byte_len(seq![c]) == vstd::utf8::encode_scalar(c as u32).len(),
        text::byte_len(a) == vstd::utf8::encode_utf8(a).len(),
{
    text::lemma_byte_len_concat(a, b);
    text::lemma_byte_len_is_utf8_len(a);
    text::lemma_byte_len_is_utf8_len(seq![c]);
    assert(vstd::utf8::encode_utf8(seq![c]) =~= vstd::utf8::encode_scalar(c as u32)) by {
        reveal_with_fuel(vstd::utf8::encode_utf8, 2);
        assert(seq![c].drop_first() =~= Seq::<char>::empty());
    }
}

/// Numbers are written from their first digit to their last: one more digit is ten times
/// the number and that digit.
pub proof fn digits_count_by_ten(n: nat, d: nat)
    requires
        d <= 9,
    ensures
        d == 0 ==> number::decimal(d) == seq!['0'],
        d == 1 ==> number::decimal(d) == seq!['1'],
        d == 2 ==> number::decimal(d) == seq!['2'],
        d == 3 ==> number::decimal(d) == seq!['3'],
        d == 4 ==> number::decimal(d) == seq!['4'],
        d == 5 ==> number::decimal(d) == seq!['5'],
        d == 6 ==> number::decimal(d) == seq!['6'],
        d == 7 ==> number::decimal(d) == seq!['7'],
        d == 8 ==> number::decimal(d) == seq!['8'],
        d == 9 ==> number::decimal(d) == seq!['9'],
        n > 0 ==> number::decimal(n * 10 + d) == number::decimal(n) + number::decimal(d),
        n > 0 ==> number::decimal_int(-(n as int)) == seq!['-'] + number::decimal(n),
        number::decimal_int(n as int) == number::decimal(n),
{
    assert((n * 10 + d) / 10 == n);
    assert((n * 10 + d) % 10 == d);
    if n > 0 {
        assert(number::decimal(n * 10 + d) =~= number::decimal(n) + number::decimal(d));
    }
}

} // verus!
