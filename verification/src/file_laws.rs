//! What holds of the names of files, of their times and of their sizes.

use crate::swap_files;
use crate::swap_files::Sibling;
use crate::text_laws::is_gap;
use crate::{civil_date, number, round_trip, text, text_laws};
use vstd::prelude::*;

verus! {

/// The calendar goes from day to day: the first day is the first of January 1970, within a
/// month each day is followed by the next, and behind the last day of a month comes the
/// first of the next. February has 29 days in years that four divides, unless a hundred
/// does and four hundred does not.
pub proof fn days_follow_each_other(year: int, month: int, day: int)
    requires
        1970 <= year,
        1 <= month <= 12,
        1 <= day,
        day <= if month == 2 {
            if year % 4 == 0 && (year % 100 != 0 || year % 400 == 0) {
                29
            } else {
                28int
            }
        } else if month == 4 || month == 6 || month == 9 || month == 11 {
            30
        } else {
            31
        },
    ensures
        civil_date::date_on(0) == (1970int, 1int, 1int),
        ({
            let n = civil_date::day_number(year, month, day);
            let last = if month == 2 {
                if year % 4 == 0 && (year % 100 != 0 || year % 400 == 0) {
                    29
                } else {
                    28int
                }
            } else if month == 4 || month == 6 || month == 9 || month == 11 {
                30
            } else {
                31
            };
            &&& n >= 0
            &&& civil_date::date_on(n) == (year, month, day)
            &&& civil_date::date_on(n + 1) == if day < last {
                (year, month, day + 1)
            } else if month < 12 {
                (year, month + 1, 1int)
            } else {
                (year + 1, 1int, 1int)
            }
        }),
{
    let n = civil_date::day_number(year, month, day);
    civil_date::date_on_day_number(1970, 1, 1);
    civil_date::date_on_day_number(year, month, day);
    civil_date::lemma_days_before_month(1970);
    civil_date::lemma_days_before_month(year);
    civil_date::lemma_days_before_month(year + 1);
    civil_date::lemma_leap_years_step(year);
    assert(civil_date::day_number(1970, 1, 1) == 0);
    let last = civil_date::days_in_month(year, month);
    lemma_leap_years_grow(1969, year - 1);
    if day < last {
        civil_date::date_on_day_number(year, month, day + 1);
    } else if month < 12 {
        civil_date::date_on_day_number(year, month + 1, 1);
        assert(civil_date::day_number(year, month + 1, 1) == n + 1);
    } else {
        civil_date::date_on_day_number(year + 1, 1, 1);
        assert(civil_date::day_number(year + 1, 1, 1) == n + 1);
    }
}

proof fn lemma_leap_years_grow(a: int, b: int)
    requires
        0 <= a <= b,
    ensures
        civil_date::leap_years_through(a) <= civil_date::leap_years_through(b),
    decreases b - a,
{
    if a < b {
        lemma_leap_years_grow(a, b - 1);
        civil_date::lemma_leap_years_step(b);
    }
}

/// The time stamp of a moment names its year, month and day, and behind a dash its hour,
/// minute and second, each in decimal with its full width.
pub proof fn time_stamp_names_the_moment(
    year: nat,
    month: nat,
    day: nat,
    hour: nat,
    minute: nat,
    second: nat,
)
    requires
        civil_date::is_date(year as int, month as int, day as int),
        hour <= 23,
        minute <= 59,
        second <= 59,
    ensures
        ({
            let days = civil_date::day_number(year as int, month as int, day as int);
            &&& days >= 0
            &&& swap_files::timestamp_text(
                (days * 86_400 + hour * 3_600 + minute * 60 + second) as nat,
            ) == number::padded(year, 4) + number::padded(month, 2) + number::padded(day, 2)
                + "-"@ + number::padded(hour, 2) + number::padded(minute, 2) + number::padded(
                second,
                2,
            )
        }),
{
    let days = civil_date::day_number(year as int, month as int, day as int);
    days_follow_each_other(year as int, month as int, day as int);
    let seconds = (days * 86_400 + hour * 3_600 + minute * 60 + second) as nat;
    assert(seconds / 86_400 == days);
    assert(seconds % 86_400 == hour * 3_600 + minute * 60 + second);
    let of_day = seconds % 86_400;
    assert(of_day / 3_600 == hour);
    assert(of_day % 3_600 == minute * 60 + second);
    assert((of_day % 3_600) / 60 == minute);
    assert(of_day % 60 == second);
    reveal_strlit("-");
    assert("-"@ =~= seq!['-']);
}

/// The names of snapshots: the first is the name of the file, `.bak-` and the time, and the
/// later ones have their number behind that.
pub proof fn snapshots_are_numbered(file_name: Seq<char>, seconds: nat, attempt: nat)
    requires
        attempt > 0,
    ensures
        swap_files::snapshot_text(file_name, seconds, 0) == file_name + ".bak-"@
            + swap_files::timestamp_text(seconds),
        swap_files::snapshot_text(file_name, seconds, attempt) == swap_files::snapshot_text(
            file_name,
            seconds,
            0,
        ) + "-"@ + number::decimal(attempt),
{
    reveal_strlit("-");
    assert("-"@ =~= seq!['-']);
}

/// The name that is free is the first that is: it is not taken, every name before it is,
/// and there is only one.
pub proof fn first_free_name_is_the_first(
    file_name: Seq<char>,
    seconds: nat,
    taken: Seq<Seq<char>>,
    attempt: nat,
    other: nat,
)
    requires
        swap_files::is_first_free(file_name, seconds, taken, attempt),
    ensures
        !taken.contains(swap_files::snapshot_text(file_name, seconds, attempt)),
        other < attempt ==> taken.contains(
            swap_files::snapshot_text(file_name, seconds, other),
        ),
        swap_files::is_first_free(file_name, seconds, taken, other) ==> other == attempt,
        !taken.contains(swap_files::snapshot_text(file_name, seconds, 0)) ==> attempt == 0,
{
    if other < attempt {
        assert(taken.contains(swap_files::snapshot_text(file_name, seconds, other)));
    }
    if attempt > 0 {
        assert(taken.contains(swap_files::snapshot_text(file_name, seconds, 0)));
    }
}

/// Two processes, or two writes of one, never share a temporary name, and none of them is
/// the name of the file.
pub proof fn temporary_names_differ(
    file_name: Seq<char>,
    pid: nat,
    nonce: nat,
    other_pid: nat,
    other_nonce: nat,
)
    ensures
        swap_files::temp_text(file_name, pid, nonce) == swap_files::temp_text(
            file_name,
            other_pid,
            other_nonce,
        ) ==> pid == other_pid && nonce == other_nonce,
        swap_files::temp_text(file_name, pid, nonce) != file_name,
        swap_files::temp_text(file_name, pid, nonce)[0] == '.',
        swap_files::temp_text(file_name, pid, nonce) == "."@ + file_name + ".tmp-"@
            + number::decimal(pid) + "-"@ + number::decimal(nonce),
{
    let a = swap_files::temp_text(file_name, pid, nonce);
    let b = swap_files::temp_text(file_name, other_pid, other_nonce);
    reveal_strlit(".tmp-");
    reveal_strlit(".");
    reveal_strlit("-");
    assert("."@ =~= seq!['.']);
    assert("-"@ =~= seq!['-']);
    let front = seq!['.'] + file_name + ".tmp-"@;
    let n = front.len() as int;
    lemma_no_dash(pid);
    lemma_no_dash(other_pid);
    text_laws::first_separator_parts(number::decimal(pid), '-', number::decimal(nonce));
    text_laws::first_separator_parts(number::decimal(other_pid), '-', number::decimal(other_nonce));
    assert(a.skip(n) =~= number::decimal(pid) + seq!['-'] + number::decimal(nonce));
    assert(b.skip(n) =~= number::decimal(other_pid) + seq!['-'] + number::decimal(other_nonce));
    text_laws::decimals_are_read(pid, pid + other_pid);
    text_laws::decimals_are_read(other_pid, pid + other_pid);
    text_laws::decimals_are_read(nonce, nonce + other_nonce);
    text_laws::decimals_are_read(other_nonce, nonce + other_nonce);
    assert(a.len() > file_name.len());
}

proof fn lemma_no_dash(n: nat)
    ensures
        !number::decimal(n).contains('-'),
{
    text_laws::decimals_are_words(n);
    if number::decimal(n).contains('-') {
        let k = choose|k: int| 0 <= k < number::decimal(n).len() && number::decimal(n)[k] == '-';
        assert('0' <= number::decimal(n)[k] <= '9');
    }
}

/// A line with a number is a process id where the number is above one and fits in 32 bits,
/// whatever white space stands around it; the ids of a listing are those of its lines, in
/// order.
pub proof fn written_ids_are_read(
    lines: Seq<Seq<char>>,
    before: Seq<char>,
    pid: int,
    after: Seq<char>,
)
    requires
        is_gap(before),
        is_gap(after),
    ensures
        swap_files::pids_on_lines(lines.push(before + number::decimal_int(pid) + after)) == if 1
            < pid <= 0x7fff_ffff {
            swap_files::pids_on_lines(lines).push(pid as i32)
        } else {
            swap_files::pids_on_lines(lines)
        },
        swap_files::pids_on_lines(Seq::empty()).len() == 0,
{
    let digits = number::decimal_int(pid);
    let line = before + digits + after;
    round_trip::lemma_decimal_word(pid);
    assert(!text::is_white(digits[0]) && !text::is_white(digits[digits.len() - 1]));
    text_laws::gaps_are_trimmed(before, digits, after);
    text_laws::signed_decimals_are_read(pid);
    assert(lines.push(line).drop_last() =~= lines);
}

/// A line with anything but a number is passed over.
pub proof fn other_lines_hold_no_id(lines: Seq<Seq<char>>, line: Seq<char>, k: int)
    requires
        text::trim(line).len() == 0 || (0 <= k < text::trim(line).len() && !('0' <= text::trim(
            line,
        )[k] <= '9') && (k > 0 || (text::trim(line)[0] != '+' && text::trim(line)[0] != '-'))),
    ensures
        swap_files::pids_on_lines(lines.push(line)) == swap_files::pids_on_lines(lines),
{
    text_laws::other_texts_are_no_numbers(text::trim(line), k, 0);
    assert(lines.push(line).drop_last() =~= lines);
}

proof fn lemma_padded_digits(n: nat, width: nat)
    ensures
        number::padded(n, width).len() > 0,
        forall|i: int|
            0 <= i < number::padded(n, width).len() ==> number::is_digit(
                #[trigger] number::padded(n, width)[i],
            ),
{
    number::lemma_decimal_value(n);
    let digits = number::decimal(n);
    let s = number::padded(n, width);
    let k = s.len() - digits.len();
    assert forall|i: int| 0 <= i < s.len() implies number::is_digit(#[trigger] s[i]) by {
        if i >= k {
            assert(number::is_digit(digits[i - k]));
        }
    }
}

/// The span of the number of a shard is that of the digits before `-of-`, and the count is
/// the number behind it; where the number is above the count there is none.
pub proof fn written_shard_is_known(
    prefix: Seq<char>,
    index: nat,
    width: nat,
    count: nat,
    places: nat,
    rest: Seq<char>,
)
    requires
        prefix.len() > 0 ==> !('0' <= prefix.last() <= '9'),
        rest.len() > 0 ==> !('0' <= rest[0] <= '9'),
        index <= usize::MAX,
        count <= usize::MAX,
        ({
            let name = prefix + number::padded(index, width) + "-of-"@ + number::padded(
                count,
                places,
            ) + rest;
            forall|i: int|
                0 <= i < prefix.len() ==> !text::starts_with(#[trigger] name.skip(i), "-of-"@)
        }),
    ensures
        swap_files::shard_digits(
            prefix + number::padded(index, width) + "-of-"@ + number::padded(count, places) + rest,
        ) == if index <= count {
            Some(
                (
                    prefix.len() as int,
                    (prefix.len() + number::padded(index, width).len()) as int,
                    count,
                ),
            )
        } else {
            None
        },
        index <= count ==> swap_files::shard_bytes(
            prefix + number::padded(index, width) + "-of-"@ + number::padded(count, places) + rest,
        ) == Some(
            (
                (
                    text::byte_len(prefix) as int,
                    (text::byte_len(prefix) + number::padded(index, width).len()) as int,
                ),
                count,
            ),
        ),
{
    let first = number::padded(index, width);
    let second = number::padded(count, places);
    let name = prefix + first + "-of-"@ + second + rest;
    lemma_padded_digits(index, width);
    lemma_padded_digits(count, places);
    text_laws::padded_numbers_are_read(index, width, usize::MAX as nat);
    text_laws::padded_numbers_are_read(count, places, usize::MAX as nat);
    lemma_shard(name, prefix, first, index, second, count, rest);
    assert(name.take(prefix.len() as int) =~= prefix);
    assert(name.take((prefix.len() + first.len()) as int) =~= prefix + first);
    text::lemma_byte_len_concat(prefix, first);
    lemma_digit_bytes(first);
}

proof fn lemma_shard(
    name: Seq<char>,
    prefix: Seq<char>,
    first: Seq<char>,
    index: nat,
    second: Seq<char>,
    count: nat,
    rest: Seq<char>,
)
    requires
        name == prefix + first + "-of-"@ + second + rest,
        prefix.len() > 0 ==> !number::is_digit(prefix.last()),
        rest.len() > 0 ==> !number::is_digit(rest[0]),
        forall|i: int| 0 <= i < first.len() ==> number::is_digit(#[trigger] first[i]),
        forall|i: int| 0 <= i < second.len() ==> number::is_digit(#[trigger] second[i]),
        number::parse_unsigned(first, usize::MAX as nat) == Some(index),
        number::parse_unsigned(second, usize::MAX as nat) == Some(count),
        forall|i: int|
            0 <= i < prefix.len() ==> !text::starts_with(#[trigger] name.skip(i), "-of-"@),
    ensures
        swap_files::shard_digits(name) == if index <= count {
            Some((prefix.len() as int, (prefix.len() + first.len()) as int, count))
        } else {
            None
        },
{
    let start = prefix.len() as int;
    let of = start + first.len();
    lemma_of(name, prefix, first, second, rest);
    let head = name.take(of);
    assert(head =~= prefix + first) by {
        reveal_strlit("-of-");
    }
    assert forall|i: int| head.len() - first.len() <= i < head.len() implies number::is_digit(
        #[trigger] head[i],
    ) by {
        assert(number::is_digit(first[i - start]));
    }
    swap_files::lemma_trailing_digits(head, first.len() as int);
    let tail = name.skip(of + 4);
    assert(tail =~= second + rest) by {
        reveal_strlit("-of-");
    }
    assert forall|i: int| 0 <= i < second.len() implies number::is_digit(#[trigger] tail[i]) by {
        assert(number::is_digit(second[i]));
    }
    swap_files::lemma_leading_digits(tail, second.len() as int);
    assert(tail.take(second.len() as int) =~= second);
    assert(name.subrange(start, of) =~= first) by {
        reveal_strlit("-of-");
    }
}

proof fn lemma_of(
    name: Seq<char>,
    prefix: Seq<char>,
    first: Seq<char>,
    second: Seq<char>,
    rest: Seq<char>,
)
    requires
        name == prefix + first + "-of-"@ + second + rest,
        forall|i: int| 0 <= i < first.len() ==> number::is_digit(#[trigger] first[i]),
        forall|i: int|
            0 <= i < prefix.len() ==> !text::starts_with(#[trigger] name.skip(i), "-of-"@),
    ensures
        swap_files::position_from(name, "-of-"@, 0) == Some((prefix.len() + first.len()) as int),
{
    let start = prefix.len() as int;
    let of = start + first.len();
    reveal_strlit("-of-");
    assert(name.skip(of).take(4) =~= "-of-"@);
    assert forall|i: int| 0 <= i < of implies !text::starts_with(
        #[trigger] name.skip(i),
        "-of-"@,
    ) by {
        if i >= start && text::starts_with(name.skip(i), "-of-"@) {
            assert(name.skip(i).take(4)[0] == '-');
            assert(number::is_digit(first[i - start]));
        }
    }
    lemma_position(name, "-of-"@, 0, of);
}

proof fn lemma_digit_bytes(s: Seq<char>)
    requires
        forall|i: int| 0 <= i < s.len() ==> number::is_digit(#[trigger] s[i]),
    ensures
        text::byte_len(s) == s.len(),
    decreases s.len(),
{
    if s.len() > 0 {
        assert(number::is_digit(s[s.len() - 1]));
        assert forall|i: int| 0 <= i < s.drop_last().len() implies number::is_digit(
            #[trigger] s.drop_last()[i],
        ) by {
            assert(number::is_digit(s[i]));
        }
        lemma_digit_bytes(s.drop_last());
    }
}

proof fn lemma_position(s: Seq<char>, part: Seq<char>, from: int, at: int)
    requires
        0 <= from <= at < s.len(),
        forall|i: int| 0 <= i < at ==> !text::starts_with(#[trigger] s.skip(i), part),
        text::starts_with(s.skip(at), part),
    ensures
        swap_files::position_from(s, part, from) == Some(at),
    decreases at - from,
{
    if from < at {
        assert(!text::starts_with(s.skip(from), part));
        lemma_position(s, part, from + 1, at);
    }
}

/// A name with `-of-` but without a number right before it, or right behind it, is that of
/// no shard.
pub proof fn shards_need_both_numbers(prefix: Seq<char>, rest: Seq<char>)
    requires
        (prefix.len() == 0 || !('0' <= prefix.last() <= '9')) || (rest.len() == 0 || !('0'
            <= rest[0] <= '9')),
        ({
            let name = prefix + "-of-"@ + rest;
            forall|i: int|
                0 <= i < prefix.len() ==> !text::starts_with(#[trigger] name.skip(i), "-of-"@)
        }),
    ensures
        swap_files::shard_bytes(prefix + "-of-"@ + rest) is None,
{
    let name = prefix + "-of-"@ + rest;
    let of = prefix.len() as int;
    reveal_strlit("-of-");
    assert(name.skip(of).take(4) =~= "-of-"@);
    lemma_position(name, "-of-"@, 0, of);
    assert(name.take(of) =~= prefix);
    let tail = name.skip(of + 4);
    assert(tail =~= rest);
    if prefix.len() == 0 || !('0' <= prefix.last() <= '9') {
        swap_files::lemma_trailing_digits(prefix, 0);
        assert(name.subrange(of, of).len() == 0);
        text_laws::other_texts_are_no_numbers(name.subrange(of, of), 0, usize::MAX as nat);
    } else {
        swap_files::lemma_leading_digits(tail, 0);
        assert(tail.take(0).len() == 0);
        text_laws::other_texts_are_no_numbers(tail.take(0), 0, usize::MAX as nat);
    }
}

/// A name without `-of-` is that of no shard.
pub proof fn other_names_are_no_shards(name: Seq<char>)
    requires
        forall|i: int| 0 <= i < name.len() ==> !text::starts_with(#[trigger] name.skip(i), "-of-"@),
    ensures
        swap_files::shard_bytes(name) is None,
{
    lemma_no_position(name, "-of-"@, 0);
}

proof fn lemma_no_position(s: Seq<char>, part: Seq<char>, from: int)
    requires
        0 <= from,
        forall|i: int| 0 <= i < s.len() ==> !text::starts_with(#[trigger] s.skip(i), part),
    ensures
        swap_files::position_from(s, part, from) is None,
    decreases s.len() - from,
{
    if from < s.len() {
        assert(!text::starts_with(s.skip(from), part));
        lemma_no_position(s, part, from + 1);
    }
}

proof fn lemma_encoded(a: Seq<char>, b: Seq<char>)
    ensures
        vstd::utf8::encode_utf8(a + b) == vstd::utf8::encode_utf8(a) + vstd::utf8::encode_utf8(b),
    decreases a.len(),
{
    if a.len() == 0 {
        assert(a + b =~= b);
        assert(vstd::utf8::encode_utf8(a) + vstd::utf8::encode_utf8(b)
            =~= vstd::utf8::encode_utf8(b));
    } else {
        lemma_encoded(a.drop_first(), b);
        assert((a + b).drop_first() =~= a.drop_first() + b);
        assert((a + b)[0] == a[0]);
        assert(vstd::utf8::encode_utf8(a + b) =~= vstd::utf8::encode_utf8(a)
            + vstd::utf8::encode_utf8(b));
    }
}

/// A file whose name has the same characters before and behind the number, and a number of
/// as many bytes, counts as a shard of the set with its size.
pub proof fn siblings_count_as_shards(
    siblings: Seq<Sibling>,
    sibling: Sibling,
    prefix: Seq<char>,
    own: Seq<char>,
    other: Seq<char>,
    rest: Seq<char>,
)
    requires
        sibling.name@ == prefix + other + rest,
        text::byte_len(own) == text::byte_len(other),
    ensures
        ({
            let shard = vstd::utf8::encode_utf8(prefix + own + rest);
            let start = text::byte_len(prefix) as int;
            let end = start + text::byte_len(own);
            swap_files::shard_sizes(siblings.push(sibling), shard, start, end)
                == swap_files::shard_sizes(siblings, shard, start, end).push(sibling.size)
        }),
{
    let shard = vstd::utf8::encode_utf8(prefix + own + rest);
    let name = vstd::utf8::encode_utf8(sibling.name@);
    let start = text::byte_len(prefix) as int;
    let end = start + text::byte_len(own);
    lemma_encoded(prefix + own, rest);
    lemma_encoded(prefix, own);
    lemma_encoded(prefix + other, rest);
    lemma_encoded(prefix, other);
    text::lemma_byte_len_is_utf8_len(prefix);
    text::lemma_byte_len_is_utf8_len(own);
    text::lemma_byte_len_is_utf8_len(other);
    text::lemma_byte_len_is_utf8_len(rest);
    assert(shard.take(start) =~= vstd::utf8::encode_utf8(prefix));
    assert(name.take(start) =~= vstd::utf8::encode_utf8(prefix));
    assert(shard.skip(end) =~= vstd::utf8::encode_utf8(rest));
    assert(name.skip(end) =~= vstd::utf8::encode_utf8(rest));
    assert(siblings.push(sibling).drop_last() =~= siblings);
}

/// A file whose name has another length in bytes, or differs before or behind the number,
/// does not count.
pub proof fn strangers_are_no_shards(
    siblings: Seq<Sibling>,
    sibling: Sibling,
    shard: Seq<u8>,
    start: int,
    end: int,
    k: int,
)
    requires
        0 <= start <= end <= shard.len(),
        ({
            let name = vstd::utf8::encode_utf8(sibling.name@);
            name.len() != shard.len() || (0 <= k < shard.len() && name[k] != shard[k] && (k < start
                || k >= end))
        }),
    ensures
        swap_files::shard_sizes(siblings.push(sibling), shard, start, end)
            == swap_files::shard_sizes(siblings, shard, start, end),
        swap_files::shard_sizes(Seq::empty(), shard, start, end).len() == 0,
{
    let name = vstd::utf8::encode_utf8(sibling.name@);
    assert(siblings.push(sibling).drop_last() =~= siblings);
    if swap_files::is_shard_of(name, shard, start, end) {
        if k < start {
            assert(name.take(start)[k] == shard.take(start)[k]);
        } else {
            assert(name.skip(end)[k - end] == shard.skip(end)[k - end]);
        }
    }
}

/// The size of a set is the sum over its shards, each counted in full; it is not known
/// where there is no shard or where the size of one is not known.
pub proof fn shard_sizes_add_up(sizes: Seq<Option<u64>>, size: u64, k: int)
    ensures
        swap_files::shard_total(seq![Some(size)]) == Some(size as nat),
        swap_files::shard_total(sizes) is Some ==> swap_files::shard_total(sizes.push(Some(size)))
            == Some(swap_files::shard_total(sizes)->0 + size as nat),
        sizes.len() == 0 ==> swap_files::shard_total(sizes) is None,
        0 <= k < sizes.len() && sizes[k] is None ==> swap_files::shard_total(sizes) is None,
        sizes.len() > 0 && (forall|i: int| 0 <= i < sizes.len() ==> #[trigger] sizes[i] is Some)
            ==> swap_files::shard_total(sizes) is Some,
{
    let one = seq![Some(size)];
    assert(one.drop_last() =~= Seq::<Option<u64>>::empty());
    reveal_with_fuel(swap_files::known_total, 2);
    assert(!one.contains(None::<u64>));
    let more = sizes.push(Some(size));
    assert(more.drop_last() =~= sizes);
    if swap_files::shard_total(sizes) is Some {
        assert(!more.contains(None::<u64>)) by {
            if more.contains(None::<u64>) {
                let i = choose|i: int| 0 <= i < more.len() && more[i] == None::<u64>;
                assert(sizes[i] == None::<u64>);
            }
        }
    }
    if 0 <= k < sizes.len() && sizes[k] is None {
        assert(sizes.contains(sizes[k]));
    }
}

/// The size of a model is that of its set where its name is that of one of several shards
/// whose sizes are all known, and its own otherwise.
pub proof fn model_size_is_that_of_its_set(
    file_name: Seq<char>,
    siblings: Seq<Sibling>,
    own: Option<u64>,
)
    ensures
        ({
            let size = match own {
                Some(n) => Some(n as nat),
                None => None,
            };
            match swap_files::shard_bytes(file_name) {
                Some(((start, end), count)) => {
                    let total = swap_files::shard_total(
                        swap_files::shard_sizes(
                            siblings,
                            vstd::utf8::encode_utf8(file_name),
                            start,
                            end,
                        ),
                    );
                    swap_files::model_size(file_name, siblings, own) == if count >= 2
                        && total is Some {
                        total
                    } else {
                        size
                    }
                },
                None => swap_files::model_size(file_name, siblings, own) == size,
            }
        }),
{
}

/// The sum of these sizes.
pub open spec fn sum_of(sizes: Seq<u64>) -> nat
    decreases sizes.len(),
{
    if sizes.len() == 0 {
        0
    } else {
        sum_of(sizes.drop_last()) + sizes.last() as nat
    }
}

/// The size of a model that is split into several shards is the sum of the sizes of all
/// files that are named like it but for the number, whatever the size of its own file.
pub proof fn split_model_has_the_size_of_all(
    prefix: Seq<char>,
    index: nat,
    width: nat,
    count: nat,
    places: nat,
    rest: Seq<char>,
    siblings: Seq<Sibling>,
    sizes: Seq<u64>,
    numbers: Seq<nat>,
    own: Option<u64>,
)
    requires
        prefix.len() > 0 ==> !('0' <= prefix.last() <= '9'),
        rest.len() > 0 ==> !('0' <= rest[0] <= '9'),
        index <= count <= usize::MAX,
        count >= 2,
        ({
            let tail = "-of-"@ + number::padded(count, places) + rest;
            let name = prefix + number::padded(index, width) + tail;
            &&& forall|i: int|
                0 <= i < prefix.len() ==> !text::starts_with(#[trigger] name.skip(i), "-of-"@)
            &&& siblings.len() > 0
            &&& sizes.len() == siblings.len()
            &&& numbers.len() == siblings.len()
            &&& forall|i: int|
                0 <= i < siblings.len() ==> (#[trigger] siblings[i]).size == Some(sizes[i])
                    && siblings[i].name@ == prefix + number::padded(numbers[i], width) + tail
                    && number::padded(numbers[i], width).len() == number::padded(
                    index,
                    width,
                ).len()
        }),
    ensures
        swap_files::model_size(
            prefix + number::padded(index, width) + ("-of-"@ + number::padded(count, places)
                + rest),
            siblings,
            own,
        ) == Some(sum_of(sizes)),
{
    let tail = "-of-"@ + number::padded(count, places) + rest;
    let first = number::padded(index, width);
    let name = prefix + first + tail;
    assert(name =~= prefix + first + "-of-"@ + number::padded(count, places) + rest);
    written_shard_is_known(prefix, index, width, count, places, rest);
    lemma_padded_digits(index, width);
    lemma_digit_bytes(first);
    lemma_split_sizes(prefix, first, width, tail, siblings, sizes, numbers);
}

proof fn lemma_split_sizes(
    prefix: Seq<char>,
    first: Seq<char>,
    width: nat,
    tail: Seq<char>,
    siblings: Seq<Sibling>,
    sizes: Seq<u64>,
    numbers: Seq<nat>,
)
    requires
        text::byte_len(first) == first.len(),
        sizes.len() == siblings.len(),
        numbers.len() == siblings.len(),
        forall|i: int|
            0 <= i < siblings.len() ==> (#[trigger] siblings[i]).size == Some(sizes[i])
                && siblings[i].name@ == prefix + number::padded(numbers[i], width) + tail
                && number::padded(numbers[i], width).len() == first.len(),
    ensures
        ({
            let shard = vstd::utf8::encode_utf8(prefix + first + tail);
            let start = text::byte_len(prefix) as int;
            let read = swap_files::shard_sizes(siblings, shard, start, start + first.len());
            &&& read.len() == sizes.len()
            &&& forall|i: int| 0 <= i < read.len() ==> #[trigger] read[i] == Some(sizes[i])
            &&& swap_files::known_total(read) == sum_of(sizes)
        }),
    decreases siblings.len(),
{
    if siblings.len() > 0 {
        let n = siblings.len() - 1;
        let earlier = siblings.drop_last();
        assert forall|i: int| 0 <= i < earlier.len() implies (#[trigger] earlier[i]).size == Some(
            sizes.drop_last()[i],
        ) && earlier[i].name@ == prefix + number::padded(numbers.drop_last()[i], width) + tail
            && number::padded(numbers.drop_last()[i], width).len() == first.len() by {
            assert(earlier[i] == siblings[i]);
        }
        lemma_split_sizes(
            prefix,
            first,
            width,
            tail,
            earlier,
            sizes.drop_last(),
            numbers.drop_last(),
        );
        let other = number::padded(numbers[n], width);
        lemma_padded_digits(numbers[n], width);
        lemma_digit_bytes(other);
        assert(siblings[n].size == Some(sizes[n]));
        siblings_count_as_shards(earlier, siblings[n], prefix, first, other, tail);
        assert(earlier.push(siblings[n]) =~= siblings);
        let shard = vstd::utf8::encode_utf8(prefix + first + tail);
        let start = text::byte_len(prefix) as int;
        let read = swap_files::shard_sizes(siblings, shard, start, start + first.len());
        assert(read.drop_last() =~= swap_files::shard_sizes(
            earlier,
            shard,
            start,
            start + first.len(),
        ));
    }
}

} // verus!
