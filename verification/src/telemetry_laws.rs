//! What the listings of processes, devices and counters are read as when they are written
//! from known numbers.

use crate::telemetry;
use crate::telemetry::{GpuSpec, ProcessSample, ProcessSpec, ResourceSnapshot};
use crate::telemetry::{ServerIoTelemetry, SystemMemoryTelemetry};
use crate::text_laws::{is_core, is_gap, is_word};
use crate::{number, text, text_laws};
use vstd::prelude::*;

verus! {

/// A field with a comma and a space before the next one.
pub open spec fn listed(fields: Seq<Seq<char>>) -> Seq<char> {
    text::join(
        Seq::new(
            fields.len(),
            |i: int|
                if i == 0 {
                    fields[0]
                } else {
                    seq![' '] + fields[i]
                },
        ),
        seq![','],
    )
}

/// The line of a device with these numbers.
pub open spec fn gpu_line(name: Seq<char>, numbers: Seq<nat>, power: Seq<char>) -> Seq<char> {
    listed(
        Seq::new(
            8,
            |i: int|
                if i == 0 {
                    name
                } else if i < 7 {
                    number::decimal(numbers[i - 1])
                } else {
                    power
                },
        ),
    )
}

proof fn lemma_padded_field(field: Seq<char>)
    requires
        is_core(field),
    ensures
        text::trim(field) == field,
        text::trim(seq![' '] + field) == field,
{
    let none = Seq::<char>::empty();
    text_laws::core_is_kept(field);
    assert(is_gap(seq![' ']));
    text_laws::gaps_are_trimmed(seq![' '], field, none);
    assert(seq![' '] + field + none =~= seq![' '] + field);
}

/// Fields that hold no comma and no white space at their ends are read one by one.
pub proof fn listed_fields_are_read(fields: Seq<Seq<char>>)
    requires
        fields.len() > 0,
        forall|i: int|
            0 <= i < fields.len() ==> is_core(#[trigger] fields[i]) && !fields[i].contains(','),
    ensures
        text::split(listed(fields), ',').len() == fields.len(),
        forall|i: int|
            0 <= i < fields.len() ==> text::trim(#[trigger] text::split(listed(fields), ',')[i])
                == fields[i],
{
    let parts = Seq::new(
        fields.len(),
        |i: int|
            if i == 0 {
                fields[0]
            } else {
                seq![' '] + fields[i]
            },
    );
    assert forall|i: int| 0 <= i < parts.len() implies !(#[trigger] parts[i]).contains(',') by {
        assert(is_core(fields[i]) && !fields[i].contains(','));
        if parts[i].contains(',') {
            let k = choose|k: int| 0 <= k < parts[i].len() && parts[i][k] == ',';
            if i == 0 {
                assert(fields[0][k] == ',');
            } else {
                assert(fields[i][k - 1] == ',');
            }
        }
    }
    text_laws::separated_parts_are_read(parts, ',');
    assert forall|i: int| 0 <= i < fields.len() implies text::trim(
        #[trigger] text::split(listed(fields), ',')[i],
    ) == fields[i] by {
        lemma_padded_field(fields[i]);
        assert(parts[i] == text::split(listed(fields), ',')[i]);
    }
}

proof fn lemma_decimal_field(n: nat)
    ensures
        is_core(number::decimal(n)),
        !number::decimal(n).contains(','),
        !number::decimal(n).contains('\n'),
        !number::decimal(n).contains(':'),
{
    text_laws::decimals_are_words(n);
    let digits = number::decimal(n);
    assert(!text::is_white(digits[0]) && !text::is_white(digits[digits.len() - 1]));
    assert forall|k: int| 0 <= k < digits.len() implies digits[k] != ',' && digits[k] != '\n'
        && digits[k] != ':' by {
        assert('0' <= digits[k] <= '9');
    }
}

/// A line that names a device and gives its numbers is read as that device with exactly
/// these numbers, whatever they are within the width of their fields.
pub proof fn written_device_is_read(name: Seq<char>, numbers: Seq<nat>, power: Seq<char>)
    requires
        is_core(name),
        !name.contains(','),
        numbers.len() == 6,
        numbers[0] <= 0xffff_ffff_ffff_ffff,
        numbers[1] <= 0xffff_ffff_ffff_ffff,
        numbers[2] <= 0xffff_ffff_ffff_ffff,
        numbers[3] <= 0xffff_ffff,
        numbers[4] <= 0xffff_ffff,
        numbers[5] <= 0xffff_ffff,
        is_core(power),
        !power.contains(','),
    ensures
        name.len() > 0 || numbers[0] > 0 ==> telemetry::gpu_of_line(
            gpu_line(name, numbers, power),
        ) == Some(
            GpuSpec {
                name,
                total_vram_mib: numbers[0],
                used_vram_mib: numbers[1],
                free_vram_mib: numbers[2],
                gpu_util_percent: numbers[3],
                mem_util_percent: numbers[4],
                temperature_c: numbers[5],
                power_watts: if telemetry::is_fraction(power) {
                    Some(power)
                } else {
                    None
                },
            },
        ),
        name.len() == 0 && numbers[0] == 0 ==> telemetry::gpu_of_line(
            gpu_line(name, numbers, power),
        ) is None,
{
    let fields = Seq::new(
        8,
        |i: int|
            if i == 0 {
                name
            } else if i < 7 {
                number::decimal(numbers[i - 1])
            } else {
                power
            },
    );
    assert forall|i: int| 0 <= i < fields.len() implies is_core(#[trigger] fields[i])
        && !fields[i].contains(',') by {
        if 0 < i < 7 {
            lemma_decimal_field(numbers[i - 1]);
        }
    }
    listed_fields_are_read(fields);
    let line = gpu_line(name, numbers, power);
    let read = text::split(line, ',').map_values(|field: Seq<char>| text::trim(field));
    assert forall|i: int| 0 <= i < 8 implies #[trigger] read[i] == fields[i] by {
        assert(read[i] == text::trim(text::split(line, ',')[i]));
    }
    assert(read[0] == name && read[7] == power);
    assert forall|i: int| 0 <= i < 6 implies #[trigger] read[i + 1] == number::decimal(
        numbers[i],
    ) by {}
    assert(read[1] == number::decimal(numbers[0]));
    assert(read[2] == number::decimal(numbers[1]));
    assert(read[3] == number::decimal(numbers[2]));
    assert(read[4] == number::decimal(numbers[3]));
    assert(read[5] == number::decimal(numbers[4]));
    assert(read[6] == number::decimal(numbers[5]));
    text_laws::decimals_are_read(numbers[0], u64::MAX as nat);
    text_laws::decimals_are_read(numbers[1], u64::MAX as nat);
    text_laws::decimals_are_read(numbers[2], u64::MAX as nat);
    text_laws::decimals_are_read(numbers[3], u32::MAX as nat);
    text_laws::decimals_are_read(numbers[4], u32::MAX as nat);
    text_laws::decimals_are_read(numbers[5], u32::MAX as nat);
}

/// Whether a field gives this number: it spells it in decimal, or spells no number and
/// gives zero. A number that does not fit gives zero too.
pub open spec fn gives(field: Seq<char>, n: nat, max: nat) -> bool {
    ||| n <= max && field == number::decimal(n)
    ||| n == 0 && exists|m: nat| m > max && field == #[trigger] number::decimal(m)
    ||| n == 0 && field.len() == 0
    ||| n == 0 && exists|i: int|
        0 <= i < field.len() && !('0' <= #[trigger] field[i] <= '9') && (i > 0 || field[0] != '+')
}

proof fn lemma_gives(field: Seq<char>, n: nat, max: nat)
    requires
        gives(field, n, max),
    ensures
        telemetry::number_or_zero(field, max) == n,
{
    if n <= max && field == number::decimal(n) {
        text_laws::decimals_are_read(n, max);
    } else if exists|m: nat| m > max && field == #[trigger] number::decimal(m) {
        let m = choose|m: nat| m > max && field == #[trigger] number::decimal(m);
        text_laws::decimals_are_read(m, max);
    } else if field.len() == 0 {
        unknown_numbers_are_zero(field, 0, max);
    } else {
        let i = choose|i: int|
            0 <= i < field.len() && !('0' <= #[trigger] field[i] <= '9') && (i > 0 || field[0]
                != '+');
        unknown_numbers_are_zero(field, i, max);
    }
}

/// The device on any line with eight fields or more: the first, without white space around
/// it, is its name, and each of the next six gives its number, on its own.
pub proof fn device_fields_are_read(parts: Seq<Seq<char>>, name: Seq<char>, numbers: Seq<nat>)
    requires
        parts.len() >= 8,
        forall|i: int| 0 <= i < parts.len() ==> !(#[trigger] parts[i]).contains(','),
        text::trim(parts[0]) == name,
        name.len() > 0,
        numbers.len() == 6,
        gives(text::trim(parts[1]), numbers[0], 0xffff_ffff_ffff_ffff),
        gives(text::trim(parts[2]), numbers[1], 0xffff_ffff_ffff_ffff),
        gives(text::trim(parts[3]), numbers[2], 0xffff_ffff_ffff_ffff),
        gives(text::trim(parts[4]), numbers[3], 0xffff_ffff),
        gives(text::trim(parts[5]), numbers[4], 0xffff_ffff),
        gives(text::trim(parts[6]), numbers[5], 0xffff_ffff),
    ensures
        telemetry::gpu_of_line(text::join(parts, seq![','])) == Some(
            GpuSpec {
                name,
                total_vram_mib: numbers[0],
                used_vram_mib: numbers[1],
                free_vram_mib: numbers[2],
                gpu_util_percent: numbers[3],
                mem_util_percent: numbers[4],
                temperature_c: numbers[5],
                power_watts: if telemetry::is_fraction(text::trim(parts[7])) {
                    Some(text::trim(parts[7]))
                } else {
                    None
                },
            },
        ),
{
    text_laws::separated_parts_are_read(parts, ',');
    let line = text::join(parts, seq![',']);
    let read = text::split(line, ',').map_values(|field: Seq<char>| text::trim(field));
    assert forall|i: int| 0 <= i < parts.len() implies #[trigger] read[i] == text::trim(
        parts[i],
    ) by {}
    lemma_gives(read[1], numbers[0], u64::MAX as nat);
    lemma_gives(read[2], numbers[1], u64::MAX as nat);
    lemma_gives(read[3], numbers[2], u64::MAX as nat);
    lemma_gives(read[4], numbers[3], u32::MAX as nat);
    lemma_gives(read[5], numbers[4], u32::MAX as nat);
    lemma_gives(read[6], numbers[5], u32::MAX as nat);
}

/// The device of a listing is that of its first line that describes one; lines with fewer
/// than eight fields describe none.
pub proof fn first_device_is_read(short: Seq<Seq<char>>, line: Seq<char>, rest: Seq<Seq<char>>)
    requires
        forall|i: int| 0 <= i < short.len() ==> text::split(#[trigger] short[i], ',').len() <= 7,
        telemetry::gpu_of_line(line) is Some,
    ensures
        telemetry::gpu_from(short + seq![line] + rest, 0) == telemetry::gpu_of_line(line),
        telemetry::gpu_from(short, 0) is None,
{
    lemma_device_from(short + seq![line] + rest, 0, short.len() as int);
    lemma_no_device(short, 0);
    assert((short + seq![line] + rest)[short.len() as int] == line);
}

proof fn lemma_device_from(lines: Seq<Seq<char>>, from: int, at: int)
    requires
        0 <= from <= at < lines.len(),
        forall|i: int| from <= i < at ==> text::split(#[trigger] lines[i], ',').len() <= 7,
        telemetry::gpu_of_line(lines[at]) is Some,
    ensures
        telemetry::gpu_from(lines, from) == telemetry::gpu_of_line(lines[at]),
    decreases at - from,
{
    if from < at {
        assert(text::split(lines[from], ',').len() <= 7);
        lemma_device_from(lines, from + 1, at);
    }
}

proof fn lemma_no_device(lines: Seq<Seq<char>>, from: int)
    requires
        0 <= from <= lines.len(),
        forall|i: int| 0 <= i < lines.len() ==> text::split(#[trigger] lines[i], ',').len() <= 7,
    ensures
        telemetry::gpu_from(lines, from) is None,
    decreases lines.len() - from,
{
    if from < lines.len() {
        assert(text::split(lines[from], ',').len() <= 7);
        lemma_no_device(lines, from + 1);
    }
}

/// The output of the device query: its first line decides, with every number as it is
/// written there.
pub proof fn device_query_is_read(
    name: Seq<char>,
    numbers: Seq<nat>,
    power: Seq<char>,
    rest: Seq<char>,
)
    requires
        is_core(name),
        name.len() > 0,
        !name.contains(','),
        !name.contains('\n'),
        numbers.len() == 6,
        forall|i: int| 0 <= i < 6 ==> #[trigger] numbers[i] <= 0xffff_ffff,
        is_core(power),
        power.len() > 0,
        !power.contains(','),
        !power.contains('\n'),
    ensures
        match telemetry::gpu_from(
            text::lines(gpu_line(name, numbers, power) + seq!['\n'] + rest),
            0,
        ) {
            Some(gpu) => gpu.name == name && gpu.total_vram_mib == numbers[0] && gpu.used_vram_mib
                == numbers[1] && gpu.free_vram_mib == numbers[2] && gpu.gpu_util_percent
                == numbers[3] && gpu.mem_util_percent == numbers[4] && gpu.temperature_c
                == numbers[5],
            None => false,
        },
{
    let line = gpu_line(name, numbers, power);
    let fields = Seq::new(
        8,
        |i: int|
            if i == 0 {
                name
            } else if i < 7 {
                number::decimal(numbers[i - 1])
            } else {
                power
            },
    );
    assert(numbers[0] <= 0xffff_ffff && numbers[1] <= 0xffff_ffff && numbers[2] <= 0xffff_ffff);
    assert(numbers[3] <= 0xffff_ffff && numbers[4] <= 0xffff_ffff && numbers[5] <= 0xffff_ffff);
    written_device_is_read(name, numbers, power);
    let parts = Seq::new(
        8,
        |i: int|
            if i == 0 {
                fields[0]
            } else {
                seq![' '] + fields[i]
            },
    );
    assert forall|i: int| 0 <= i < parts.len() implies !(#[trigger] parts[i]).contains('\n')
        && parts[i].len() > 0 by {
        if 0 < i < 7 {
            lemma_decimal_field(numbers[i - 1]);
        }
        assert(!fields[i].contains('\n'));
        if parts[i].contains('\n') {
            let k = choose|k: int| 0 <= k < parts[i].len() && parts[i][k] == '\n';
            if i == 0 {
                assert(fields[0][k] == '\n');
            } else {
                assert(fields[i][k - 1] == '\n');
            }
        }
    }
    lemma_join_one_line(parts, ',');
    assert(line == text::join(parts, seq![',']));
    assert(line.last() == power.last()) by {
        assert(parts[7].last() == power.last());
    }
    text_laws::first_line_is_read(line, rest);
    let lines = text::lines(line + seq!['\n'] + rest);
    assert(lines[0] == line);
}

proof fn lemma_join_one_line(parts: Seq<Seq<char>>, c: char)
    requires
        c != '\n',
        parts.len() > 0,
        forall|i: int|
            0 <= i < parts.len() ==> !(#[trigger] parts[i]).contains('\n') && parts[i].len() > 0,
    ensures
        !text::join(parts, seq![c]).contains('\n'),
        text::join(parts, seq![c]).len() > 0,
        text::join(parts, seq![c]).last() == parts.last().last(),
    decreases parts.len(),
{
    let s = text::join(parts, seq![c]);
    assert(!parts[0].contains('\n') && parts[0].len() > 0);
    if parts.len() > 1 {
        let others = parts.drop_first();
        assert forall|i: int| 0 <= i < others.len() implies !(#[trigger] others[i]).contains('\n')
            && others[i].len() > 0 by {
            assert(others[i] == parts[i + 1]);
        }
        lemma_join_one_line(others, c);
        let rest = text::join(others, seq![c]);
        assert(s =~= parts[0] + seq![c] + rest);
        if s.contains('\n') {
            let k = choose|k: int| 0 <= k < s.len() && s[k] == '\n';
            let n = parts[0].len() as int;
            if k < n {
                assert(parts[0][k] == '\n');
            } else {
                assert(rest[k - n - 1] == '\n');
            }
        }
    }
}

/// A field of the device that spells no number counts as zero.
pub proof fn unknown_numbers_are_zero(s: Seq<char>, i: int, max: nat)
    requires
        s.len() == 0 || (0 <= i < s.len() && !('0' <= s[i] <= '9') && (i > 0 || s[0] != '+')),
    ensures
        telemetry::number_or_zero(s, max) == 0,
{
    if s.len() > 0 && s[0] == '-' {
        text_laws::negative_texts_are_not_unsigned(s, max);
    } else {
        text_laws::other_texts_are_no_numbers(s, i, max);
    }
}

/// Whether a text is digits and at least one.
pub open spec fn is_digits(s: Seq<char>) -> bool {
    s.len() > 0 && forall|i: int| 0 <= i < s.len() ==> '0' <= #[trigger] s[i] <= '9'
}

/// Digits with a point between them are a fraction, with or without a sign and an
/// exponent; so are digits alone.
pub proof fn written_fractions_are_fractions(
    whole: Seq<char>,
    part: Seq<char>,
    exponent: Seq<char>,
    sign: char,
)
    requires
        is_digits(whole),
        is_digits(part),
        is_digits(exponent),
        sign == '+' || sign == '-',
    ensures
        telemetry::is_fraction(whole),
        telemetry::is_fraction(whole + seq!['.'] + part),
        telemetry::is_fraction(seq![sign] + whole + seq!['.'] + part),
        telemetry::is_fraction(whole + seq!['.'] + part + seq!['e'] + exponent),
        telemetry::is_fraction(whole + seq!['.'] + part + seq!['e'] + seq![sign] + exponent),
{
    let s = whole + seq!['.'] + part;
    lemma_mantissa(whole, part);
    lemma_no_exponent(whole);
    lemma_no_exponent(s);
    assert(whole[0] != '+' && whole[0] != '-') by {
        assert('0' <= whole[0] <= '9');
    }
    assert(s[0] == whole[0]);
    let signed = seq![sign] + whole + seq!['.'] + part;
    assert(signed.drop_first() =~= s);
    let e = s + seq!['e'] + exponent;
    lemma_exponent(s, exponent);
    assert(e[0] == s[0]);
    assert(e.take(s.len() as int) =~= s);
    assert(e.skip(s.len() as int + 1) =~= exponent);
    assert(exponent[0] != '+' && exponent[0] != '-') by {
        assert('0' <= exponent[0] <= '9');
    }
    assert(number::all_digits(exponent)) by {
        assert forall|i: int| 0 <= i < exponent.len() implies number::is_digit(
            #[trigger] exponent[i],
        ) by {}
    }
    let f = s + seq!['e'] + seq![sign] + exponent;
    let tail = seq![sign] + exponent;
    lemma_exponent(s, tail);
    assert(f =~= s + seq!['e'] + tail);
    assert(f[0] == s[0]);
    assert(f.take(s.len() as int) =~= s);
    assert(f.skip(s.len() as int + 1) =~= tail);
    assert(tail.drop_first() =~= exponent);
}

proof fn lemma_mantissa(whole: Seq<char>, part: Seq<char>)
    requires
        is_digits(whole),
        is_digits(part),
    ensures
        telemetry::is_mantissa(whole),
        telemetry::is_mantissa(whole + seq!['.'] + part),
        forall|i: int|
            0 <= i < (whole + seq!['.'] + part).len() ==> (#[trigger] (whole + seq!['.'] + part)[i])
                != 'e' && (whole + seq!['.'] + part)[i] != 'E',
        forall|i: int| 0 <= i < whole.len() ==> #[trigger] whole[i] != 'e' && whole[i] != 'E',
{
    assert(!whole.contains('.')) by {
        if whole.contains('.') {
            let k = choose|k: int| 0 <= k < whole.len() && whole[k] == '.';
            assert('0' <= whole[k] <= '9');
        }
    }
    text_laws::first_separator_parts(whole, '.', part);
    assert forall|i: int| 0 <= i < whole.len() implies number::is_digit(#[trigger] whole[i])
        && whole[i] != 'e' && whole[i] != 'E' by {
        assert('0' <= whole[i] <= '9');
    }
    assert forall|i: int| 0 <= i < part.len() implies number::is_digit(#[trigger] part[i])
        && part[i] != 'e' && part[i] != 'E' by {
        assert('0' <= part[i] <= '9');
    }
    let s = whole + seq!['.'] + part;
    assert forall|i: int| 0 <= i < s.len() implies (#[trigger] s[i]) != 'e' && s[i] != 'E' by {
        let n = whole.len() as int;
        if i < n {
            assert(s[i] == whole[i]);
        } else if i > n {
            assert(s[i] == part[i - n - 1]);
        }
    }
}

proof fn lemma_no_exponent(s: Seq<char>)
    requires
        forall|i: int| 0 <= i < s.len() ==> #[trigger] s[i] != 'e' && s[i] != 'E',
    ensures
        telemetry::exponent_at(s) == s.len(),
    decreases s.len(),
{
    if s.len() > 0 {
        let rest = s.drop_first();
        assert(s[0] != 'e' && s[0] != 'E');
        assert forall|i: int| 0 <= i < rest.len() implies #[trigger] rest[i] != 'e' && rest[i]
            != 'E' by {
            assert(rest[i] == s[i + 1]);
        }
        lemma_no_exponent(rest);
    }
}

proof fn lemma_exponent(s: Seq<char>, tail: Seq<char>)
    requires
        forall|i: int| 0 <= i < s.len() ==> #[trigger] s[i] != 'e' && s[i] != 'E',
    ensures
        telemetry::exponent_at(s + seq!['e'] + tail) == s.len(),
    decreases s.len(),
{
    let all = s + seq!['e'] + tail;
    if s.len() > 0 {
        let rest = s.drop_first();
        assert(all[0] == s[0]);
        assert forall|i: int| 0 <= i < rest.len() implies #[trigger] rest[i] != 'e' && rest[i]
            != 'E' by {
            assert(rest[i] == s[i + 1]);
        }
        lemma_exponent(rest, tail);
        assert(all.drop_first() =~= rest + seq!['e'] + tail);
    }
}

/// The words of a process row.
pub open spec fn process_fields(
    pid: nat,
    parent: nat,
    group: nat,
    cpu: Seq<char>,
    rss: nat,
    command: Seq<Seq<char>>,
) -> Seq<Seq<char>> {
    seq![
        number::decimal(pid),
        number::decimal(parent),
        number::decimal(group),
        cpu,
        number::decimal(rss),
    ] + command
}

/// A row of the process table, written from its numbers and the words of the command, is
/// read as that process, with any white space in front and any single white character
/// between the fields.
pub proof fn written_process_is_read(
    gap: Seq<char>,
    sep: char,
    pid: u32,
    parent: u32,
    group: u32,
    cpu: Seq<char>,
    rss: u64,
    command: Seq<Seq<char>>,
)
    requires
        is_gap(gap),
        text::is_white(sep),
        is_word(cpu),
        telemetry::is_fraction(cpu),
        command.len() > 0,
        forall|i: int| 0 <= i < command.len() ==> is_word(#[trigger] command[i]),
    ensures
        telemetry::process_of_row(
            gap + text::join(
                process_fields(pid as nat, parent as nat, group as nat, cpu, rss as nat, command),
                seq![sep],
            ),
        ) == Some(
            ProcessSpec {
                pid,
                parent_pid: parent,
                process_group: group,
                cpu_percent: cpu,
                rss_kib: rss,
                command: text::join(command, seq![' ']),
            },
        ),
{
    let fields = process_fields(
        pid as nat,
        parent as nat,
        group as nat,
        cpu,
        rss as nat,
        command,
    );
    text_laws::decimals_are_words(pid as nat);
    text_laws::decimals_are_words(parent as nat);
    text_laws::decimals_are_words(group as nat);
    text_laws::decimals_are_words(rss as nat);
    assert forall|i: int| 0 <= i < fields.len() implies is_word(#[trigger] fields[i]) by {
        if i >= 5 {
            assert(fields[i] == command[i - 5]);
        }
    }
    text_laws::spaced_words_are_read(fields, sep);
    text_laws::leading_gap_holds_no_word(gap, text::join(fields, seq![sep]));
    text_laws::decimals_are_read(pid as nat, u32::MAX as nat);
    text_laws::decimals_are_read(parent as nat, u32::MAX as nat);
    text_laws::decimals_are_read(group as nat, u32::MAX as nat);
    text_laws::decimals_are_read(rss as nat, u64::MAX as nat);
    assert(fields.skip(5) =~= command);
}

/// The processes of a table are those of its rows, in order; a row without a process adds
/// none.
pub proof fn process_rows_are_read_in_turn(rows: Seq<Seq<char>>, row: Seq<char>)
    ensures
        telemetry::processes_of_lines(rows.push(row)) == match telemetry::process_of_row(row) {
            Some(process) => telemetry::processes_of_lines(rows).push(process),
            None => telemetry::processes_of_lines(rows),
        },
        telemetry::processes_of_lines(Seq::empty()).len() == 0,
{
    assert(rows.push(row).drop_last() =~= rows);
}

/// A row that has fewer than six words, or whose numbers are no numbers, is no process.
pub proof fn broken_rows_are_passed_over(row: Seq<char>, k: int)
    requires
        text::words(row).len() <= 5 || !telemetry::is_fraction(text::words(row)[3]) || ((k == 0 || k
            == 1 || k == 2 || k == 4) && exists|i: int|
            0 <= i < text::words(row)[k].len() && !('0' <= #[trigger] text::words(row)[k][i]
                <= '9') && (i > 0 || (text::words(row)[k][0] != '+' && text::words(row)[k][0]
                != '-'))),
    ensures
        telemetry::process_of_row(row) is None,
{
    let words = text::words(row);
    if words.len() > 5 && telemetry::is_fraction(words[3]) {
        let i = choose|i: int|
            0 <= i < words[k].len() && !('0' <= #[trigger] words[k][i] <= '9') && (i > 0 || (
            words[k][0] != '+' && words[k][0] != '-'));
        text_laws::other_texts_are_no_numbers(words[k], i, u32::MAX as nat);
        text_laws::other_texts_are_no_numbers(words[k], i, u64::MAX as nat);
    }
}

/// The descendants of a process are its children, and the children of its descendants.
pub proof fn children_descend(processes: Seq<ProcessSample>, root: u32, i: int)
    requires
        0 <= i < processes.len(),
        processes[i].parent_pid == root || telemetry::is_descendant(
            processes,
            root,
            processes[i].parent_pid,
        ),
    ensures
        telemetry::is_descendant(processes, root, processes[i].pid),
{
    telemetry::lemma_child_descends(processes, root, i);
}

/// Nothing else descends from a process: a set that holds its children, and the children
/// of its own members, holds every descendant.
pub proof fn nothing_else_descends(
    processes: Seq<ProcessSample>,
    root: u32,
    set: Set<u32>,
    pid: u32,
)
    requires
        forall|i: int|
            0 <= i < processes.len() && ((#[trigger] processes[i]).parent_pid == root
                || set.contains(processes[i].parent_pid)) ==> set.contains(processes[i].pid),
        telemetry::is_descendant(processes, root, pid),
    ensures
        set.contains(pid),
{
    let n = choose|n: nat| telemetry::descends(processes, root, pid, n);
    lemma_descends_into(processes, root, set, pid, n);
}

proof fn lemma_descends_into(
    processes: Seq<ProcessSample>,
    root: u32,
    set: Set<u32>,
    pid: u32,
    n: nat,
)
    requires
        forall|i: int|
            0 <= i < processes.len() && ((#[trigger] processes[i]).parent_pid == root
                || set.contains(processes[i].parent_pid)) ==> set.contains(processes[i].pid),
        telemetry::descends(processes, root, pid, n),
    ensures
        set.contains(pid),
    decreases n,
{
    let i = choose|i: int|
        0 <= i < processes.len() && (#[trigger] processes[i]).pid == pid && (
        processes[i].parent_pid == root || (n > 0 && telemetry::descends(
            processes,
            root,
            processes[i].parent_pid,
            (n - 1) as nat,
        )));
    if processes[i].parent_pid != root {
        lemma_descends_into(processes, root, set, processes[i].parent_pid, (n - 1) as nat);
    }
}

/// What a selection uses is the sum over the processes: each one that is selected counts
/// once, with all of its memory and its share of the processor, and no other counts.
pub proof fn selected_processes_count_once(
    processes: Seq<ProcessSample>,
    process: ProcessSample,
    pids: Set<u32>,
)
    ensures
        telemetry::selected_rss(processes.push(process), pids) == telemetry::selected_rss(
            processes,
            pids,
        ) + if pids.contains(process.pid) {
            process.rss_kib as nat
        } else {
            0
        },
        telemetry::selected_cpu(processes.push(process), pids) == if pids.contains(process.pid) {
            telemetry::selected_cpu(processes, pids).push(process.cpu_percent@)
        } else {
            telemetry::selected_cpu(processes, pids)
        },
        telemetry::selected_rss(Seq::empty(), pids) == 0,
        telemetry::selected_cpu(Seq::empty(), pids).len() == 0,
{
    assert(processes.push(process).drop_last() =~= processes);
}

/// The first process whose executable has a name is found by that name, with any directory
/// before it.
pub proof fn named_process_is_found(
    processes: Seq<ProcessSample>,
    dir: Seq<char>,
    name: Seq<char>,
    at: int,
)
    requires
        0 <= at < processes.len(),
        !name.contains('/'),
        processes[at].command@ == name || processes[at].command@ == dir + seq!['/'] + name,
        forall|i: int|
            0 <= i < at ==> !text::ends_with((#[trigger] processes[i]).command@, name),
    ensures
        telemetry::named_from(processes, name, 0) == Some(at),
{
    text_laws::last_separator_parts(dir, '/', name);
    lemma_named_from(processes, name, 0, at);
}

proof fn lemma_named_from(processes: Seq<ProcessSample>, name: Seq<char>, from: int, at: int)
    requires
        0 <= from <= at < processes.len(),
        text::behind_last(processes[at].command@, '/') == name,
        forall|i: int|
            0 <= i < at ==> !text::ends_with((#[trigger] processes[i]).command@, name),
    ensures
        telemetry::named_from(processes, name, from) == Some(at),
    decreases at - from,
{
    if from < at {
        let command = processes[from].command@;
        lemma_behind_last_is_end(command, '/');
        assert(!text::ends_with(command, name));
        lemma_named_from(processes, name, from + 1, at);
    }
}

proof fn lemma_behind_last_is_end(s: Seq<char>, c: char)
    ensures
        text::ends_with(s, text::behind_last(s, c)),
    decreases s.len(),
{
    let end = text::behind_last(s, c);
    if s.len() > 0 && s.last() != c {
        let shorter = s.drop_last();
        lemma_behind_last_is_end(shorter, c);
        let part = text::behind_last(shorter, c);
        assert(s.skip(s.len() - end.len()) =~= shorter.skip(shorter.len() - part.len()).push(
            s.last(),
        ));
    } else {
        assert(s.skip(s.len() as int) =~= Seq::<char>::empty());
    }
}

/// A row of the device's list of processes counts its memory where its process is
/// selected, and nothing where it is not.
pub proof fn written_memory_row_is_read(pid: u32, memory: u64, pids: Set<u32>)
    ensures
        telemetry::row_memory(
            number::decimal(pid as nat) + ", "@ + number::decimal(memory as nat),
            pids,
        ) == if pids.contains(pid) {
            memory as nat
        } else {
            0
        },
{
    let a = number::decimal(pid as nat);
    let b = number::decimal(memory as nat);
    reveal_strlit(", ");
    lemma_decimal_field(pid as nat);
    lemma_decimal_field(memory as nat);
    text_laws::first_separator_parts(a, ',', seq![' '] + b);
    assert(a + ", "@ + b =~= a + seq![','] + (seq![' '] + b));
    lemma_padded_field(a);
    lemma_padded_field(b);
    text_laws::decimals_are_read(pid as nat, u32::MAX as nat);
    text_laws::decimals_are_read(memory as nat, u64::MAX as nat);
}

/// The memory of the rows adds up, row by row.
pub proof fn memory_rows_add_up(rows: Seq<Seq<char>>, row: Seq<char>, pids: Set<u32>)
    ensures
        telemetry::rows_memory(rows.push(row), pids) == telemetry::rows_memory(rows, pids)
            + telemetry::row_memory(row, pids),
        telemetry::rows_memory(Seq::empty(), pids) == 0,
{
    assert(rows.push(row).drop_last() =~= rows);
}

/// The free space is the fourth word of the first line behind the heading where it is a
/// number.
pub proof fn written_free_space_is_read(
    heading: Seq<char>,
    words: Seq<Seq<char>>,
    free: u64,
    more: Seq<Seq<char>>,
    rest: Seq<Seq<char>>,
)
    requires
        words.len() == 3,
        forall|i: int| 0 <= i < words.len() ==> is_word(#[trigger] words[i]),
        forall|i: int| 0 <= i < more.len() ==> is_word(#[trigger] more[i]),
    ensures
        ({
            let line = text::join(
                words + seq![number::decimal(free as nat)] + more,
                seq![' '],
            );
            telemetry::free_kib_from(seq![heading, line] + rest, 1) == Some(free as nat)
        }),
{
    let list = words + seq![number::decimal(free as nat)] + more;
    text_laws::decimals_are_words(free as nat);
    assert forall|i: int| 0 <= i < list.len() implies is_word(#[trigger] list[i]) by {
        if i < 3 {
            assert(list[i] == words[i]);
        } else if i > 3 {
            assert(list[i] == more[i - 4]);
        }
    }
    text_laws::spaced_words_are_read(list, ' ');
    text_laws::decimals_are_read(free as nat, u64::MAX as nat);
    let line = text::join(list, seq![' ']);
    assert((seq![heading, line] + rest)[1] == line);
    assert(list[3] == number::decimal(free as nat));
}

/// A line of the network listing says the first and the ninth number behind its colon.
pub proof fn written_traffic_is_read(
    device: Seq<char>,
    gap: Seq<char>,
    numbers: Seq<u64>,
)
    requires
        !device.contains(':'),
        is_gap(gap),
        numbers.len() >= 9,
    ensures
        ({
            let words = Seq::new(numbers.len(), |i: int| number::decimal(numbers[i] as nat));
            telemetry::line_traffic(device + seq![':'] + (gap + text::join(words, seq![' '])))
                == Some((numbers[0] as nat, numbers[8] as nat))
        }),
{
    let words = Seq::new(numbers.len(), |i: int| number::decimal(numbers[i] as nat));
    assert forall|i: int| 0 <= i < words.len() implies is_word(#[trigger] words[i]) by {
        text_laws::decimals_are_words(numbers[i] as nat);
    }
    let values = text::join(words, seq![' ']);
    text_laws::spaced_words_are_read(words, ' ');
    text_laws::leading_gap_holds_no_word(gap, values);
    text_laws::first_separator_parts(device, ':', gap + values);
    text_laws::decimals_are_read(numbers[0] as nat, u64::MAX as nat);
    text_laws::decimals_are_read(numbers[8] as nat, u64::MAX as nat);
    assert(words[0] == number::decimal(numbers[0] as nat));
    assert(words[8] == number::decimal(numbers[8] as nat));
}

/// The traffic of all devices is the sum of what their lines say, cut off at what fits in
/// 64 bits; the two heading lines do not count.
pub proof fn traffic_adds_up(headings: Seq<Seq<char>>, lines: Seq<Seq<char>>, line: Seq<char>)
    requires
        headings.len() == 2,
        forall|i: int| 0 <= i < lines.len() ==> telemetry::line_traffic(#[trigger] lines[i]) is Some,
        telemetry::line_traffic(line) is Some,
    ensures
        ({
            let (rx, tx) = telemetry::line_traffic(line)->0;
            let sums = telemetry::traffic_sums(telemetry::traffic(lines));
            let more = telemetry::traffic_sums(telemetry::traffic(lines.push(line)));
            &&& more == (sums.0 + rx, sums.1 + tx)
            &&& telemetry::network_traffic(headings + lines.push(line)) == Some(
                (
                    if more.0 > 0xffff_ffff_ffff_ffff {
                        0xffff_ffff_ffff_ffff
                    } else {
                        more.0
                    },
                    if more.1 > 0xffff_ffff_ffff_ffff {
                        0xffff_ffff_ffff_ffff
                    } else {
                        more.1
                    },
                ),
            )
        }),
        telemetry::traffic_sums(telemetry::traffic(Seq::empty())) == (0nat, 0nat),
        telemetry::network_traffic(headings) is None,
{
    let all = lines.push(line);
    assert(all.drop_last() =~= lines);
    let pair = telemetry::line_traffic(line)->0;
    let pairs = telemetry::traffic(lines);
    assert(telemetry::traffic(all) == pairs.push(pair));
    assert(pairs.push(pair).drop_last() =~= pairs);
    let rows = (headings + all).skip(2);
    assert(rows =~= all);
    assert forall|i: int| 0 <= i < rows.len() implies text::split_once(#[trigger] rows[i], ':')
        is Some by {
        if i < lines.len() {
            assert(telemetry::line_traffic(lines[i]) is Some);
        }
    }
    assert(telemetry::traffic(Seq::<Seq<char>>::empty()) =~= Seq::<(nat, nat)>::empty());
}

/// A line of the memory listing gives its key the number behind the colon, whatever unit
/// follows; it gives no other key a number.
pub proof fn written_memory_is_read(
    key: Seq<char>,
    other: Seq<char>,
    gap: Seq<char>,
    n: u64,
    unit: Seq<Seq<char>>,
)
    requires
        is_core(key),
        !key.contains(':'),
        other != key,
        is_gap(gap),
        forall|i: int| 0 <= i < unit.len() ==> is_word(#[trigger] unit[i]),
    ensures
        ({
            let line = key + seq![':'] + (gap + text::join(
                seq![number::decimal(n as nat)] + unit,
                seq![' '],
            ));
            telemetry::keyed_number(line, key) == Some(n as nat) && telemetry::keyed_number(
                line,
                other,
            ) is None
        }),
{
    let words = seq![number::decimal(n as nat)] + unit;
    text_laws::decimals_are_words(n as nat);
    assert forall|i: int| 0 <= i < words.len() implies is_word(#[trigger] words[i]) by {
        if i > 0 {
            assert(words[i] == unit[i - 1]);
        }
    }
    let value = text::join(words, seq![' ']);
    text_laws::spaced_words_are_read(words, ' ');
    text_laws::leading_gap_holds_no_word(gap, value);
    text_laws::first_separator_parts(key, ':', gap + value);
    text_laws::core_is_kept(key);
    text_laws::decimals_are_read(n as nat, u64::MAX as nat);
}

/// The last line with a key decides; lines with other keys do not count.
pub proof fn last_key_decides(lines: Seq<Seq<char>>, line: Seq<char>, key: Seq<char>)
    ensures
        telemetry::last_keyed(lines.push(line), key) == match telemetry::keyed_number(line, key) {
            Some(n) => n,
            None => telemetry::last_keyed(lines, key),
        },
        telemetry::last_keyed(Seq::empty(), key) == 0,
{
    assert(lines.push(line).drop_last() =~= lines);
}

/// The bytes that were read stand on the first line with that key.
pub proof fn written_read_bytes_are_read(
    before: Seq<Seq<char>>,
    gap: Seq<char>,
    n: u64,
    rest: Seq<Seq<char>>,
)
    requires
        forall|i: int|
            0 <= i < before.len() ==> !text::starts_with(
                text::trim_start(#[trigger] before[i]),
                "read_bytes"@,
            ),
        is_gap(gap),
    ensures
        telemetry::read_bytes_from(
            before + seq!["read_bytes"@ + seq![':'] + (gap + number::decimal(n as nat))] + rest,
            0,
        ) == Some(n as nat),
{
    let key = "read_bytes"@;
    let value = gap + number::decimal(n as nat);
    let line = key + seq![':'] + value;
    let lines = before + seq![line] + rest;
    reveal_strlit("read_bytes");
    assert(!key.contains(':')) by {
        if key.contains(':') {
            let k = choose|k: int| 0 <= k < key.len() && key[k] == ':';
        }
    }
    text_laws::first_separator_parts(key, ':', value);
    text_laws::core_is_kept(key);
    lemma_decimal_field(n as nat);
    text_laws::gaps_are_trimmed(gap, number::decimal(n as nat), Seq::empty());
    assert(gap + number::decimal(n as nat) + Seq::<char>::empty() =~= value);
    text_laws::decimals_are_read(n as nat, u64::MAX as nat);
    assert(lines[before.len() as int] == line);
    lemma_read_bytes_from(lines, 0, before.len() as int);
}

proof fn lemma_read_bytes_from(lines: Seq<Seq<char>>, from: int, at: int)
    requires
        0 <= from <= at < lines.len(),
        forall|i: int|
            0 <= i < at ==> !text::starts_with(
                text::trim_start(#[trigger] lines[i]),
                "read_bytes"@,
            ),
        "read_bytes"@.len() > 0,
    ensures
        telemetry::read_bytes_from(lines, from) == telemetry::read_bytes_from(lines, at),
    decreases at - from,
{
    if from < at {
        let line = lines[from];
        lemma_read_bytes_from(lines, from + 1, at);
        match text::split_once(line, ':') {
            Some((key, value)) => {
                text::lemma_before(line, ':');
                if text::trim(key) == "read_bytes"@ {
                    lemma_key_starts_line(line, key, value);
                    assert(!text::starts_with(text::trim_start(lines[from]), "read_bytes"@));
                }
            },
            None => {},
        }
    }
}

/// A line starts with its key, apart from white space.
proof fn lemma_key_starts_line(line: Seq<char>, key: Seq<char>, value: Seq<char>)
    requires
        text::split_once(line, ':') == Some((key, value)),
        text::trim(key).len() > 0,
    ensures
        text::starts_with(text::trim_start(line), text::trim(key)),
{
    text::lemma_before(line, ':');
    let kept = text::trim_start(key);
    text::lemma_trim_start(key);
    text::lemma_trim_end(kept);
    let n = key.len() - kept.len();
    let gap = key.take(n);
    assert forall|i: int| 0 <= i < gap.len() implies text::is_white(#[trigger] gap[i]) by {
        assert(text::is_white(key[i]));
    }
    let tail = kept + line.skip(key.len() as int);
    assert(kept.len() > 0);
    assert(line =~= gap + tail);
    text_laws::leading_gap_is_trimmed(gap, tail);
    assert(tail.take(text::trim(key).len() as int) =~= text::trim(key));
}

/// The line of a snapshot names every part that it shows, in order and in full.
pub proof fn snapshot_line_shows_every_part(snapshot: ResourceSnapshot, subject: Seq<char>)
    ensures
        snapshot.line(subject, None) == "Resources: "@ + subject + "="@ + number::decimal(
            snapshot.process_count as nat,
        ) + " cpu="@ + snapshot.cpu_percent@ + "% ram="@ + snapshot.ram_mib@ + " MiB gpu="@ + (
        match snapshot.gpu_memory_mib {
            Some(n) => number::decimal(n as nat) + " MiB"@,
            None => "n/a"@,
        }) + " disk="@ + (match snapshot.disk_free_mib {
            Some(n) => number::decimal(n as nat) + " MiB"@,
            None => "n/a"@,
        }) + " net="@ + (match (snapshot.network_rx_bytes, snapshot.network_tx_bytes) {
            (Some(rx), Some(tx)) => "rx="@ + number::decimal(rx as nat) + "B tx="@
                + number::decimal(tx as nat) + "B"@,
            _ => "n/a"@,
        }),
{
    let line = snapshot.line(subject, None);
    assert(telemetry::elapsed_text(None) =~= Seq::<char>::empty());
    assert(line =~= line + Seq::<char>::empty());
}

/// The time that has passed is shown in minutes and seconds, with at least two digits
/// each, and can be told from what is shown.
pub proof fn elapsed_time_can_be_read(
    snapshot: ResourceSnapshot,
    subject: Seq<char>,
    seconds: u64,
)
    ensures
        exists|minutes: nat, rest: nat|
            minutes * 60 + rest == seconds && rest <= 59 && snapshot.line(subject, Some(seconds))
                == snapshot.line(subject, None) + " elapsed="@ + #[trigger] number::padded(
                minutes,
                2,
            ) + ":"@ + #[trigger] number::padded(rest, 2),
{
    let minutes = (seconds / 60) as nat;
    let rest = (seconds % 60) as nat;
    let base = snapshot.line(subject, None);
    assert(telemetry::elapsed_text(None) =~= Seq::<char>::empty());
    assert(base + Seq::<char>::empty() =~= base);
    assert(snapshot.line(subject, Some(seconds)) =~= base + " elapsed="@ + number::padded(
        minutes,
        2,
    ) + ":"@ + number::padded(rest, 2));
    assert(minutes * 60 + rest == seconds);
}

/// A line of the memory listing.
pub open spec fn memory_line(key: Seq<char>, gap: Seq<char>, n: u64) -> Seq<char> {
    key + seq![':'] + (gap + text::join(seq![number::decimal(n as nat)] + seq!["kB"@], seq![' ']))
}

proof fn lemma_memory_line(
    lines: Seq<Seq<char>>,
    key: Seq<char>,
    gap: Seq<char>,
    n: u64,
    other: Seq<char>,
)
    requires
        is_word(key),
        !key.contains(':'),
        is_gap(gap),
    ensures
        telemetry::last_keyed(lines.push(memory_line(key, gap, n)), key) == n,
        other != key ==> telemetry::last_keyed(lines.push(memory_line(key, gap, n)), other)
            == telemetry::last_keyed(lines, other),
{
    let line = memory_line(key, gap, n);
    reveal_strlit("kB");
    assert(!text::is_white(key[0]) && !text::is_white(key[key.len() - 1]));
    assert(is_word("kB"@));
    let another = if other != key {
        other
    } else {
        key + key
    };
    written_memory_is_read(key, another, gap, n, seq!["kB"@]);
    last_key_decides(lines, line, key);
    last_key_decides(lines, line, other);
}

proof fn lemma_keys()
    ensures
        is_word("MemTotal"@) && !"MemTotal"@.contains(':'),
        is_word("MemAvailable"@) && !"MemAvailable"@.contains(':'),
        is_word("SwapTotal"@) && !"SwapTotal"@.contains(':'),
        is_word("SwapFree"@) && !"SwapFree"@.contains(':'),
        "MemTotal"@ != "MemAvailable"@,
        "MemTotal"@ != "SwapTotal"@,
        "MemTotal"@ != "SwapFree"@,
        "MemAvailable"@ != "SwapTotal"@,
        "MemAvailable"@ != "SwapFree"@,
        "SwapTotal"@ != "SwapFree"@,
{
    reveal_strlit("MemTotal");
    reveal_strlit("MemAvailable");
    reveal_strlit("SwapTotal");
    reveal_strlit("SwapFree");
    assert("MemTotal"@[0] == 'M' && "SwapFree"@[0] == 'S');
    assert("MemTotal"@.len() == 8 && "MemAvailable"@.len() == 12);
    assert("SwapTotal"@.len() == 9 && "SwapFree"@.len() == 8);
}

/// The memory of the machine is what the listing says in KiB, rounded down to MiB, and what
/// is used is what is not available, never below zero; swap space likewise. A listing that
/// says no total says nothing.
pub proof fn written_memory_listing_is_read(
    front: Seq<Seq<char>>,
    gap: Seq<char>,
    total: u64,
    available: u64,
    total_swap: u64,
    free_swap: u64,
    memory: Option<SystemMemoryTelemetry>,
)
    requires
        is_gap(gap),
        telemetry::is_memory_on(
            front.push(memory_line("MemTotal"@, gap, total)).push(
                memory_line("MemAvailable"@, gap, available),
            ).push(memory_line("SwapTotal"@, gap, total_swap)).push(
                memory_line("SwapFree"@, gap, free_swap),
            ),
            memory,
        ),
    ensures
        memory is Some <==> total > 0,
        match memory {
            Some(m) => {
                &&& m.total_ram_mib * 1024 <= total < (m.total_ram_mib + 1) * 1024
                &&& m.available_ram_mib * 1024 <= available < (m.available_ram_mib + 1) * 1024
                &&& m.total_swap_mib * 1024 <= total_swap < (m.total_swap_mib + 1) * 1024
                &&& m.free_swap_mib * 1024 <= free_swap < (m.free_swap_mib + 1) * 1024
                &&& m.used_ram_mib == if m.total_ram_mib > m.available_ram_mib {
                    m.total_ram_mib - m.available_ram_mib
                } else {
                    0
                }
                &&& m.used_swap_mib == if m.total_swap_mib > m.free_swap_mib {
                    m.total_swap_mib - m.free_swap_mib
                } else {
                    0
                }
            },
            None => true,
        },
{
    lemma_keys();
    let a = front.push(memory_line("MemTotal"@, gap, total));
    let b = a.push(memory_line("MemAvailable"@, gap, available));
    let c = b.push(memory_line("SwapTotal"@, gap, total_swap));
    lemma_memory_line(front, "MemTotal"@, gap, total, "MemTotal"@);
    lemma_memory_line(a, "MemAvailable"@, gap, available, "MemTotal"@);
    lemma_memory_line(b, "SwapTotal"@, gap, total_swap, "MemTotal"@);
    lemma_memory_line(b, "SwapTotal"@, gap, total_swap, "MemAvailable"@);
    lemma_memory_line(c, "SwapFree"@, gap, free_swap, "MemTotal"@);
    lemma_memory_line(c, "SwapFree"@, gap, free_swap, "MemAvailable"@);
    lemma_memory_line(c, "SwapFree"@, gap, free_swap, "SwapTotal"@);
}

/// The free space on a disk is what its listing says in KiB, rounded down to MiB.
pub proof fn free_space_is_in_mib(
    heading: Seq<char>,
    words: Seq<Seq<char>>,
    free: u64,
    more: Seq<Seq<char>>,
    rest: Seq<Seq<char>>,
)
    requires
        words.len() == 3,
        forall|i: int| 0 <= i < words.len() ==> is_word(#[trigger] words[i]),
        forall|i: int| 0 <= i < more.len() ==> is_word(#[trigger] more[i]),
    ensures
        ({
            let line = text::join(
                words + seq![number::decimal(free as nat)] + more,
                seq![' '],
            );
            match telemetry::free_mib(seq![heading, line] + rest) {
                Some(mib) => mib * 1024 <= free < (mib + 1) * 1024,
                None => false,
            }
        }),
        telemetry::free_mib(seq![heading]) is None,
{
    written_free_space_is_read(heading, words, free, more, rest);
}

/// What a server has read is what its counters say, and what it has read since the count
/// before is the difference, never below zero; without such a count it is not known.
pub proof fn reading_is_counted_on(
    before: Seq<Seq<char>>,
    gap: Seq<char>,
    n: u64,
    rest: Seq<Seq<char>>,
    pid: u32,
    prev: u64,
    first: Option<ServerIoTelemetry>,
    next: Option<ServerIoTelemetry>,
)
    requires
        forall|i: int|
            0 <= i < before.len() ==> !text::starts_with(
                text::trim_start(#[trigger] before[i]),
                "read_bytes"@,
            ),
        is_gap(gap),
        ({
            let lines = before + seq![
                "read_bytes"@ + seq![':'] + (gap + number::decimal(n as nat)),
            ] + rest;
            telemetry::is_io_on(lines, pid, None, first) && telemetry::is_io_on(
                lines,
                pid,
                Some(prev),
                next,
            )
        }),
    ensures
        first == Some(ServerIoTelemetry { pid, read_bytes: n, read_delta_bytes: None }),
        prev <= n ==> next == Some(
            ServerIoTelemetry { pid, read_bytes: n, read_delta_bytes: Some((n - prev) as u64) },
        ),
        prev > n ==> next == Some(
            ServerIoTelemetry { pid, read_bytes: n, read_delta_bytes: Some(0) },
        ),
{
    written_read_bytes_are_read(before, gap, n, rest);
}

/// A row of the device's list of processes that holds no comma, or anything but two
/// numbers, counts no memory.
pub proof fn broken_memory_rows_count_nothing(
    row: Seq<char>,
    a: Seq<char>,
    b: Seq<char>,
    i: int,
    pids: Set<u32>,
)
    requires
        !a.contains(','),
        ({
            let word = text::trim(a);
            word.len() == 0 || (0 <= i < word.len() && !('0' <= word[i] <= '9') && (i > 0 || (
            word[0] != '+' && word[0] != '-')))
        }) || ({
            let word = text::trim(b);
            word.len() == 0 || (0 <= i < word.len() && !('0' <= word[i] <= '9') && (i > 0 || (
            word[0] != '+' && word[0] != '-')))
        }),
    ensures
        telemetry::row_memory(a, pids) == 0,
        telemetry::row_memory(a + seq![','] + b, pids) == 0,
{
    text_laws::first_separator_parts(a, ',', b);
    let word = text::trim(a);
    if word.len() == 0 || (0 <= i < word.len() && !('0' <= word[i] <= '9') && (i > 0 || (word[0]
        != '+' && word[0] != '-'))) {
        text_laws::other_texts_are_no_numbers(word, i, u32::MAX as nat);
    } else {
        text_laws::other_texts_are_no_numbers(text::trim(b), i, u64::MAX as nat);
    }
}

/// A network listing in which a line behind the headings has no colon is refused.
pub proof fn listing_without_a_colon_is_refused(
    headings: Seq<Seq<char>>,
    before: Seq<Seq<char>>,
    line: Seq<char>,
    after: Seq<Seq<char>>,
)
    requires
        headings.len() == 2,
        !line.contains(':'),
    ensures
        telemetry::network_traffic(headings + before + seq![line] + after) is None,
{
    let all = headings + before + seq![line] + after;
    let rows = all.skip(2);
    text_laws::first_separator_parts(line, ':', line);
    assert(rows[before.len() as int] == line);
}

/// No process is found by a name that none of the commands ends in.
pub proof fn other_names_are_not_found(processes: Seq<ProcessSample>, name: Seq<char>, from: int)
    requires
        0 <= from <= processes.len(),
        forall|i: int|
            0 <= i < processes.len() ==> !text::ends_with(
                (#[trigger] processes[i]).command@,
                name,
            ),
    ensures
        telemetry::named_from(processes, name, from) is None,
    decreases processes.len() - from,
{
    if from < processes.len() {
        let command = processes[from].command@;
        lemma_behind_last_is_end(command, '/');
        assert(!text::ends_with(command, name));
        other_names_are_not_found(processes, name, from + 1);
    }
}

/// A text with a space, a bracket, a comma, a slash, a sign of percent, or one of the
/// letters that stand in no number is no fraction.
pub proof fn other_texts_are_no_fractions(s: Seq<char>, i: int)
    requires
        0 <= i < s.len(),
        'g' <= s[i] <= 'h' || 'b' <= s[i] <= 'd' || 'o' <= s[i] <= 's' || s[i] == ',' || s[i] == '%'
            || s[i] == '[' || s[i] == ']' || s[i] == '/' || s[i] == ' ',
    ensures
        !telemetry::is_fraction(s),
{
    let rest = telemetry::unsigned_text(s);
    let k = if s[0] == '+' || s[0] == '-' {
        i - 1
    } else {
        i
    };
    assert(rest[k] == s[i]);
    lemma_strange_word(rest, k);
    let at = telemetry::exponent_at(rest) as int;
    lemma_exponent_bound(rest);
    if at >= rest.len() {
        lemma_strange_mantissa(rest, k);
    } else {
        let head = rest.take(at);
        let tail = rest.skip(at + 1);
        if k < at {
            assert(head[k] == rest[k]);
            lemma_strange_mantissa(head, k);
        } else if k > at {
            assert(tail[k - at - 1] == rest[k]);
            let exponent = telemetry::unsigned_text(tail);
            let m = if tail[0] == '+' || tail[0] == '-' {
                k - at - 2
            } else {
                k - at - 1
            };
            assert(exponent[m] == rest[k]);
            assert(!number::is_digit(exponent[m]));
        }
    }
}

proof fn lemma_exponent_bound(s: Seq<char>)
    ensures
        telemetry::exponent_at(s) <= s.len(),
        telemetry::exponent_at(s) < s.len() ==> s[telemetry::exponent_at(s) as int] == 'e'
            || s[telemetry::exponent_at(s) as int] == 'E',
    decreases s.len(),
{
    if s.len() > 0 && s[0] != 'e' && s[0] != 'E' {
        lemma_exponent_bound(s.drop_first());
    }
}

proof fn lemma_strange_mantissa(s: Seq<char>, k: int)
    requires
        0 <= k < s.len(),
        !number::is_digit(s[k]),
        s[k] != '.',
    ensures
        !telemetry::is_mantissa(s),
{
    text::lemma_before(s, '.');
    match text::split_once(s, '.') {
        Some((whole, part)) => {
            if k < whole.len() {
                assert(whole[k] == s[k]);
            } else {
                assert(part[k - whole.len() - 1] == s[k]);
            }
        },
        None => {},
    }
}

proof fn lemma_strange_word(s: Seq<char>, k: int)
    requires
        0 <= k < s.len(),
        'g' <= s[k] <= 'h' || 'b' <= s[k] <= 'd' || 'o' <= s[k] <= 's' || s[k] == ',' || s[k] == '%'
            || s[k] == '[' || s[k] == ']' || s[k] == '/' || s[k] == ' ',
    ensures
        !telemetry::is_word(s, "inf"@),
        !telemetry::is_word(s, "infinity"@),
        !telemetry::is_word(s, "nan"@),
{
    reveal_strlit("inf");
    reveal_strlit("infinity");
    reveal_strlit("nan");
    lemma_other_word(s, "inf"@, k);
    lemma_other_word(s, "infinity"@, k);
    lemma_other_word(s, "nan"@, k);
}

proof fn lemma_other_word(s: Seq<char>, word: Seq<char>, k: int)
    requires
        0 <= k < s.len(),
        k < word.len() ==> s[k] != word[k] && s[k] as u32 + 32 != word[k] as u32,
    ensures
        !telemetry::is_word(s, word),
{
    if telemetry::is_word(s, word) {
        assert(s[k] == word[k] || s[k] as u32 + 32 == word[k] as u32);
    }
}

/// A line of the network listing with fewer than nine words behind its colon, or with
/// something else than a number in the first or the ninth place, adds nothing.
pub proof fn broken_traffic_adds_nothing(
    lines: Seq<Seq<char>>,
    device: Seq<char>,
    values: Seq<char>,
    k: int,
    i: int,
)
    requires
        !device.contains(':'),
        ({
            let words = text::words(values);
            words.len() <= 8 || ((k == 0 || k == 8) && 0 <= i < words[k].len() && !('0'
                <= words[k][i] <= '9') && (i > 0 || (words[k][0] != '+' && words[k][0] != '-')))
        }),
    ensures
        telemetry::traffic(lines.push(device + seq![':'] + values)) == telemetry::traffic(lines),
{
    let line = device + seq![':'] + values;
    text_laws::first_separator_parts(device, ':', values);
    let words = text::words(values);
    if words.len() > 8 {
        text_laws::other_texts_are_no_numbers(words[k], i, u64::MAX as nat);
    }
    assert(lines.push(line).drop_last() =~= lines);
}

/// The words for numbers that are not finite are fractions, with a sign or without, in any
/// case; so are digits with a point before or behind them.
pub proof fn other_spellings_of_fractions(digits: Seq<char>, sign: char)
    requires
        is_digits(digits),
        sign == '+' || sign == '-',
    ensures
        telemetry::is_fraction("inf"@),
        telemetry::is_fraction("NaN"@),
        telemetry::is_fraction("Infinity"@),
        telemetry::is_fraction(seq![sign] + "inf"@),
        telemetry::is_fraction(digits + seq!['.']),
        telemetry::is_fraction(seq!['.'] + digits),
{
    let none = Seq::<char>::empty();
    reveal_strlit("inf");
    reveal_strlit("NaN");
    reveal_strlit("nan");
    reveal_strlit("Infinity");
    reveal_strlit("infinity");
    assert(telemetry::is_word("inf"@, "inf"@));
    assert(telemetry::is_word("NaN"@, "nan"@));
    assert(telemetry::is_word("Infinity"@, "infinity"@));
    assert((seq![sign] + "inf"@).drop_first() =~= "inf"@);
    lemma_pointed(digits, none);
    lemma_pointed(none, digits);
    assert(digits + seq!['.'] + none =~= digits + seq!['.']);
    assert(none + seq!['.'] + digits =~= seq!['.'] + digits);
}

proof fn lemma_pointed(whole: Seq<char>, part: Seq<char>)
    requires
        whole.len() == 0 || is_digits(whole),
        part.len() == 0 || is_digits(part),
        whole.len() + part.len() > 0,
    ensures
        telemetry::is_fraction(whole + seq!['.'] + part),
{
    let s = whole + seq!['.'] + part;
    assert(!whole.contains('.')) by {
        if whole.contains('.') {
            let k = choose|k: int| 0 <= k < whole.len() && whole[k] == '.';
            assert('0' <= whole[k] <= '9');
        }
    }
    text_laws::first_separator_parts(whole, '.', part);
    assert forall|i: int| 0 <= i < whole.len() implies number::is_digit(#[trigger] whole[i]) by {
        assert('0' <= whole[i] <= '9');
    }
    assert forall|i: int| 0 <= i < part.len() implies number::is_digit(#[trigger] part[i]) by {
        assert('0' <= part[i] <= '9');
    }
    assert forall|i: int| 0 <= i < s.len() implies (#[trigger] s[i]) != 'e' && s[i] != 'E' by {
        let n = whole.len() as int;
        if i < n {
            assert('0' <= whole[i] <= '9');
        } else if i > n {
            assert('0' <= part[i - n - 1] <= '9');
        }
    }
    lemma_no_exponent(s);
    assert(s[0] != '+' && s[0] != '-') by {
        if whole.len() > 0 {
            assert('0' <= whole[0] <= '9');
        }
    }
}

/// A key without a number behind its colon gives zero, and a line without a colon gives no
/// number at all.
pub proof fn key_without_a_number_gives_zero(
    key: Seq<char>,
    gap: Seq<char>,
    word: Seq<char>,
    i: int,
)
    requires
        is_core(key),
        !key.contains(':'),
        is_gap(gap),
        is_word(word),
        0 <= i < word.len(),
        !('0' <= word[i] <= '9'),
        i > 0 || word[0] != '+',
    ensures
        telemetry::keyed_number(key + seq![':'] + gap, key) == Some(0nat),
        telemetry::keyed_number(key + seq![':'] + (gap + word), key) == Some(0nat),
        telemetry::keyed_number(key, key) is None,
{
    let none = Seq::<char>::empty();
    text_laws::first_separator_parts(key, ':', gap);
    text_laws::first_separator_parts(key, ':', gap + word);
    text_laws::core_is_kept(key);
    text_laws::leading_gap_holds_no_word(gap, none);
    assert(gap + none =~= gap);
    text_laws::leading_gap_holds_no_word(gap, word);
    text_laws::spaced_words_are_read(seq![word], ' ');
    assert(text::join(seq![word], seq![' ']) == word);
    unknown_numbers_are_zero(word, i, u64::MAX as nat);
}

/// Lines of the disk listing with fewer than four words are passed over.
pub proof fn short_disk_lines_are_passed_over(
    heading: Seq<char>,
    short: Seq<Seq<char>>,
    rest: Seq<Seq<char>>,
)
    requires
        forall|i: int| 0 <= i < short.len() ==> text::words(#[trigger] short[i]).len() <= 3,
    ensures
        telemetry::free_kib_from(seq![heading] + short + rest, 1) == telemetry::free_kib_from(
            seq![heading] + rest,
            1,
        ),
    decreases short.len(),
{
    let all = seq![heading] + short + rest;
    if short.len() == 0 {
        assert(all =~= seq![heading] + rest);
    } else {
        let later = short.drop_first();
        assert forall|i: int| 0 <= i < later.len() implies text::words(
            #[trigger] later[i],
        ).len() <= 3 by {
            assert(later[i] == short[i + 1]);
        }
        short_disk_lines_are_passed_over(heading, later, rest);
        assert(all[1] == short[0]);
        assert(text::words(short[0]).len() <= 3);
        let fewer = seq![heading] + later + rest;
        assert(all.skip(2) =~= fewer.skip(1));
        lemma_free_shift(all, fewer, 2, 1);
    }
}

proof fn lemma_free_shift(a: Seq<Seq<char>>, b: Seq<Seq<char>>, i: int, j: int)
    requires
        0 <= i <= a.len(),
        0 <= j <= b.len(),
        a.skip(i) == b.skip(j),
    ensures
        telemetry::free_kib_from(a, i) == telemetry::free_kib_from(b, j),
    decreases a.len() - i,
{
    assert(a.skip(i).len() == a.len() - i);
    assert(b.skip(j).len() == b.len() - j);
    if i < a.len() {
        assert(a[i] == a.skip(i)[0]);
        assert(b[j] == b.skip(j)[0]);
        assert(a.skip(i + 1) =~= a.skip(i).skip(1));
        assert(b.skip(j + 1) =~= b.skip(j).skip(1));
        lemma_free_shift(a, b, i + 1, j + 1);
    }
}

} // verus!
