//! The files and processes around `llama-swap.yaml`: the names of snapshots and of
//! temporary files, the sizes of sharded models on disk, and the router's process ids.

use crate::{civil_date, number, text};
use vstd::prelude::*;
use vstd::slice::slice_subrange;

verus! {

/// A time as `YYYYMMDD-HHMMSS`, in UTC; `seconds` counts from 1970-01-01.
pub open spec fn timestamp_text(seconds: nat) -> Seq<char> {
    let date = civil_date::date_on((seconds / 86_400) as int);
    let of_day = seconds % 86_400;
    number::padded(date.0 as nat, 4) + number::padded(date.1 as nat, 2) + number::padded(
        date.2 as nat,
        2,
    ) + seq!['-'] + number::padded(of_day / 3_600, 2) + number::padded((of_day % 3_600) / 60, 2)
        + number::padded(of_day % 60, 2)
}

fn timestamp_chars(seconds: u64) -> (stamp: Vec<char>)
    ensures
        stamp@ == timestamp_text(seconds as nat),
{
    let (year, month, day) = civil_date::date_of_day(seconds / 86_400);
    let of_day: u64 = seconds % 86_400;
    let mut stamp = number::write_padded(year as u128, 4);
    text::append_chars(&mut stamp, number::write_padded(month as u128, 2).as_slice());
    text::append_chars(&mut stamp, number::write_padded(day as u128, 2).as_slice());
    stamp.push('-');
    text::append_chars(&mut stamp, number::write_padded((of_day / 3_600) as u128, 2).as_slice());
    text::append_chars(
        &mut stamp,
        number::write_padded(((of_day % 3_600) / 60) as u128, 2).as_slice(),
    );
    text::append_chars(&mut stamp, number::write_padded((of_day % 60) as u128, 2).as_slice());
    assert(stamp@ =~= timestamp_text(seconds as nat));
    stamp
}

/// A time as `YYYYMMDD-HHMMSS`, in UTC.
pub fn format_utc_timestamp(seconds: u64) -> (stamp: String)
    ensures
        stamp@ == timestamp_text(seconds as nat),
{
    text::string_of(timestamp_chars(seconds).as_slice())
}

/// The name of a snapshot of a file: the file's name, `.bak-` and the time, and from
/// the second attempt on a number that tells it from the names tried before.
pub open spec fn snapshot_text(file_name: Seq<char>, seconds: nat, attempt: nat) -> Seq<char> {
    let first = file_name + ".bak-"@ + timestamp_text(seconds);
    if attempt == 0 {
        first
    } else {
        first + seq!['-'] + number::decimal(attempt)
    }
}

/// The name to try for a snapshot taken at a time, after `attempt` names were taken.
pub fn snapshot_name(file_name: &str, seconds: u64, attempt: u64) -> (name: String)
    ensures
        name@ == snapshot_text(file_name@, seconds as nat, attempt as nat),
{
    let mut name = text::chars_of(file_name);
    text::append_chars(&mut name, text::chars_of(".bak-").as_slice());
    text::append_chars(&mut name, timestamp_chars(seconds).as_slice());
    if attempt > 0 {
        name.push('-');
        text::append_chars(&mut name, number::write_unsigned(attempt as u128).as_slice());
    }
    assert(name@ =~= snapshot_text(file_name@, seconds as nat, attempt as nat));
    text::string_of(name.as_slice())
}

/// No two attempts try the same name for a snapshot.
pub proof fn snapshot_names_differ(
    file_name: Seq<char>,
    seconds: nat,
    attempt: nat,
    other: nat,
)
    requires
        attempt != other,
    ensures
        snapshot_text(file_name, seconds, attempt) != snapshot_text(file_name, seconds, other),
{
    let first = file_name + ".bak-"@ + timestamp_text(seconds);
    let name = snapshot_text(file_name, seconds, attempt);
    let other_name = snapshot_text(file_name, seconds, other);
    number::lemma_decimal_value(attempt);
    number::lemma_decimal_value(other);
    if name == other_name {
        let n = first.len() as int;
        if attempt == 0 {
            assert(name.len() == n && other_name.len() > n);
        } else if other == 0 {
            assert(other_name.len() == n && name.len() > n);
        } else {
            assert(name.skip(n + 1) =~= number::decimal(attempt));
            assert(other_name.skip(n + 1) =~= number::decimal(other));
        }
    }
}

/// Whether `attempt` is the first one whose name for a snapshot is not among `taken`.
pub open spec fn is_first_free(
    file_name: Seq<char>,
    seconds: nat,
    taken: Seq<Seq<char>>,
    attempt: nat,
) -> bool {
    &&& !taken.contains(snapshot_text(file_name, seconds, attempt))
    &&& forall|earlier: nat|
        earlier < attempt ==> taken.contains(#[trigger] snapshot_text(file_name, seconds, earlier))
}

/// So many attempts can be taken at most as there are names taken.
proof fn lemma_taken_attempts(
    file_name: Seq<char>,
    seconds: nat,
    taken: Seq<Seq<char>>,
    attempts: nat,
)
    requires
        forall|earlier: nat|
            earlier < attempts ==> taken.contains(
                #[trigger] snapshot_text(file_name, seconds, earlier),
            ),
    ensures
        attempts <= taken.len(),
{
    let names = Seq::new(attempts, |i: int| snapshot_text(file_name, seconds, i as nat));
    assert forall|i: int, j: int|
        0 <= i < names.len() && 0 <= j < names.len() && i != j implies names[i] != names[j] by {
        snapshot_names_differ(file_name, seconds, i as nat, j as nat);
    }
    assert(names.no_duplicates());
    names.unique_seq_to_set();
    taken.lemma_cardinality_of_set();
    vstd::seq_lib::seq_to_set_is_finite(taken);
    assert forall|name: Seq<char>| names.to_set().contains(name) implies taken.to_set().contains(
        name,
    ) by {
        let i = choose|i: int| 0 <= i < names.len() && names[i] == name;
        assert(taken.contains(snapshot_text(file_name, seconds, i as nat)));
    }
    vstd::set_lib::lemma_len_subset(names.to_set(), taken.to_set());
}

/// The name for a snapshot taken at a time: that of the first attempt that is not among
/// the names that are taken.
pub fn free_snapshot_name(file_name: &str, seconds: u64, taken: &[String]) -> (name: String)
    ensures
        exists|attempt: nat|
            #![trigger snapshot_text(file_name@, seconds as nat, attempt)]
            is_first_free(file_name@, seconds as nat, text::views(taken@), attempt) && name@
                == snapshot_text(file_name@, seconds as nat, attempt),
{
    let ghost names = text::views(taken@);
    let mut attempt: u64 = 0;
    loop
        invariant
            names == text::views(taken@),
            attempt <= taken@.len(),
            forall|earlier: nat|
                earlier < attempt ==> names.contains(
                    #[trigger] snapshot_text(file_name@, seconds as nat, earlier),
                ),
        decreases taken@.len() - attempt,
    {
        let name = snapshot_name(file_name, seconds, attempt);
        if !is_among(taken, &name) {
            assert(is_first_free(file_name@, seconds as nat, names, attempt as nat));
            return name;
        }
        proof {
            assert forall|earlier: nat| earlier < attempt + 1 implies names.contains(
                #[trigger] snapshot_text(file_name@, seconds as nat, earlier),
            ) by {}
            lemma_taken_attempts(file_name@, seconds as nat, names, (attempt + 1) as nat);
            assert(names.len() == taken@.len());
            assert(taken@.len() == taken.len());
        }
        attempt = attempt + 1;
    }
}

/// Whether a name is among those that are taken.
fn is_among(taken: &[String], name: &String) -> (found: bool)
    ensures
        found == text::views(taken@).contains(name@),
{
    let ghost names = text::views(taken@);
    for i in 0..taken.len()
        invariant
            names == text::views(taken@),
            forall|j: int| 0 <= j < i ==> #[trigger] names[j] != name@,
    {
        assert(names[i as int] == taken@[i as int]@);
        if taken[i] == *name {
            return true;
        }
    }
    false
}

/// The name of the temporary file that a file is written through.
pub open spec fn temp_text(file_name: Seq<char>, pid: nat, nonce: nat) -> Seq<char> {
    seq!['.'] + file_name + ".tmp-"@ + number::decimal(pid) + seq!['-'] + number::decimal(nonce)
}

/// The name of the temporary file that a process writes a file through.
pub fn temp_name(file_name: &str, pid: u32, nonce: u128) -> (name: String)
    ensures
        name@ == temp_text(file_name@, pid as nat, nonce as nat),
{
    let mut name: Vec<char> = Vec::new();
    name.push('.');
    text::append_chars(&mut name, text::chars_of(file_name).as_slice());
    text::append_chars(&mut name, text::chars_of(".tmp-").as_slice());
    text::append_chars(&mut name, number::write_unsigned(pid as u128).as_slice());
    name.push('-');
    text::append_chars(&mut name, number::write_unsigned(nonce).as_slice());
    assert(name@ =~= temp_text(file_name@, pid as nat, nonce as nat));
    text::string_of(name.as_slice())
}

/// The process id on a line: a number above 1 that fits in 32 bits.
pub open spec fn pid_on_line(line: Seq<char>) -> Option<i32> {
    match number::parse_signed(text::trim(line)) {
        Some(pid) => if 1 < pid <= i32::MAX {
            Some(pid as i32)
        } else {
            None
        },
        None => None,
    }
}

/// The process ids on the lines, in order; lines that hold none are passed over.
pub open spec fn pids_on_lines(lines: Seq<Seq<char>>) -> Seq<i32>
    decreases lines.len(),
{
    if lines.len() == 0 {
        Seq::empty()
    } else {
        match pid_on_line(lines.last()) {
            Some(pid) => pids_on_lines(lines.drop_last()).push(pid),
            None => pids_on_lines(lines.drop_last()),
        }
    }
}

/// No router process is running.
#[derive(Debug, Clone, Copy, PartialEq, Eq)]
pub struct RouterNotRunning;

impl RouterNotRunning {
    /// The error in words.
    pub fn message(&self) -> (message: String)
        ensures
            message@ == "no running llama-swap process found"@,
    {
        text::string_of(text::chars_of("no running llama-swap process found").as_slice())
    }
}

/// The process ids to signal, out of the list of running routers.
pub fn router_pids(listing: &str) -> (pids: Result<Vec<i32>, RouterNotRunning>)
    ensures
        match pids {
            Ok(pids) => pids@ == pids_on_lines(text::lines(listing@)) && pids@.len() > 0,
            Err(_) => pids_on_lines(text::lines(listing@)).len() == 0,
        },
{
    let chars = text::chars_of(listing);
    let lines = text::split_lines(chars.as_slice());
    let ghost all = text::views(lines@);
    let mut pids: Vec<i32> = Vec::new();
    for i in 0..lines.len()
        invariant
            all == text::views(lines@),
            pids@ == pids_on_lines(all.take(i as int)),
    {
        assert(all.take(i + 1).drop_last() =~= all.take(i as int));
        assert(all.take(i + 1).last() == lines@[i as int]@);
        match number::read_signed(text::trimmed(lines[i].as_slice())) {
            Some(pid) => {
                if pid > 1 && pid <= i32::MAX as i64 {
                    pids.push(pid as i32);
                }
            },
            None => {},
        }
    }
    assert(all.take(all.len() as int) =~= all);
    if pids.len() == 0 {
        Err(RouterNotRunning)
    } else {
        Ok(pids)
    }
}

/// The number of digits at the end of `s`.
pub open spec fn trailing_digits(s: Seq<char>) -> nat
    decreases s.len(),
{
    if s.len() > 0 && number::is_digit(s.last()) {
        trailing_digits(s.drop_last()) + 1
    } else {
        0
    }
}

/// The number of digits at the start of `s`.
pub open spec fn leading_digits(s: Seq<char>) -> nat
    decreases s.len(),
{
    if s.len() > 0 && number::is_digit(s[0]) {
        leading_digits(s.drop_first()) + 1
    } else {
        0
    }
}

fn digit_at(s: &[char], i: usize) -> (found: bool)
    requires
        i < s@.len(),
    ensures
        found == number::is_digit(s@[i as int]),
{
    '0' <= s[i] && s[i] <= '9'
}

pub proof fn lemma_trailing_digits(s: Seq<char>, n: int)
    requires
        0 <= n <= s.len(),
        n < s.len() ==> !number::is_digit(s[s.len() - 1 - n]),
        forall|i: int| s.len() - n <= i < s.len() ==> number::is_digit(#[trigger] s[i]),
    ensures
        trailing_digits(s) == n,
    decreases n,
{
    if n > 0 {
        assert(number::is_digit(s.last()));
        lemma_trailing_digits(s.drop_last(), n - 1);
    }
}

pub proof fn lemma_leading_digits(s: Seq<char>, n: int)
    requires
        0 <= n <= s.len(),
        n < s.len() ==> !number::is_digit(s[n]),
        forall|i: int| 0 <= i < n ==> number::is_digit(#[trigger] s[i]),
    ensures
        leading_digits(s) == n,
    decreases n,
{
    if n > 0 {
        assert(number::is_digit(s[0]));
        let rest = s.drop_first();
        assert forall|i: int| 0 <= i < n - 1 implies number::is_digit(#[trigger] rest[i]) by {
            assert(number::is_digit(s[i + 1]));
        }
        lemma_leading_digits(rest, n - 1);
    }
}

/// The position of the first occurrence of `part`, which is not empty, in `s` from
/// position `from` on.
pub open spec fn position_from(s: Seq<char>, part: Seq<char>, from: int) -> Option<int>
    decreases s.len() - from,
{
    if from >= s.len() {
        None
    } else if text::starts_with(s.skip(from), part) {
        Some(from)
    } else {
        position_from(s, part, from + 1)
    }
}

/// The first position of `part` in `s`.
fn find_text(s: &[char], part: &str) -> (position: Option<usize>)
    requires
        part@.len() > 0,
    ensures
        match position {
            Some(i) => position_from(s@, part@, 0) == Some(i as int) && i + part@.len() <= s@.len(),
            None => position_from(s@, part@, 0) is None,
        },
{
    let mut i: usize = 0;
    while i < s.len()
        invariant
            part@.len() > 0,
            i <= s@.len(),
            position_from(s@, part@, 0) == position_from(s@, part@, i as int),
        decreases s@.len() - i,
    {
        let rest = slice_subrange(s, i, s.len());
        assert(rest@ =~= s@.skip(i as int));
        if text::has_prefix(rest, part) {
            return Some(i);
        }
        i = i + 1;
    }
    None
}

/// The shard number and count in a name of the form `..NNN-of-MMM..`: where the digits
/// of the number start and end, in characters, and the count. The number is at most
/// the count.
pub open spec fn shard_digits(name: Seq<char>) -> Option<(int, int, nat)> {
    match position_from(name, "-of-"@, 0) {
        None => None,
        Some(of) => {
            let start = of - trailing_digits(name.take(of));
            let tail = name.skip(of + 4);
            let index = number::parse_unsigned(name.subrange(start, of), usize::MAX as nat);
            let count = number::parse_unsigned(
                tail.take(leading_digits(tail) as int),
                usize::MAX as nat,
            );
            match (index, count) {
                (Some(index), Some(count)) => if index <= count {
                    Some((start, of, count))
                } else {
                    None
                },
                _ => None,
            }
        },
    }
}

/// The shard number and count in a name, the position of the number in bytes.
pub open spec fn shard_bytes(name: Seq<char>) -> Option<((int, int), nat)> {
    match shard_digits(name) {
        Some((start, end, count)) => Some(
            (
                (
                    text::byte_len(name.take(start)) as int,
                    text::byte_len(name.take(end)) as int,
                ),
                count,
            ),
        ),
        None => None,
    }
}

proof fn lemma_position_from(s: Seq<char>, part: Seq<char>, from: int)
    requires
        0 <= from,
    ensures
        position_from(s, part, from) matches Some(i) ==> from <= i && i + part.len() <= s.len(),
    decreases s.len() - from,
{
    if from < s.len() && !text::starts_with(s.skip(from), part) {
        lemma_position_from(s, part, from + 1);
    }
}

proof fn lemma_trailing_digits_bound(s: Seq<char>)
    ensures
        trailing_digits(s) <= s.len(),
    decreases s.len(),
{
    if s.len() > 0 {
        lemma_trailing_digits_bound(s.drop_last());
    }
}

/// The span of a shard number lies within its name.
pub proof fn lemma_shard_bytes(name: Seq<char>)
    ensures
        shard_bytes(name) matches Some(((start, end), count)) ==> 0 <= start <= end
            <= vstd::utf8::encode_utf8(name).len(),
{
    reveal_strlit("-of-");
    lemma_position_from(name, "-of-"@, 0);
    text::lemma_byte_len_is_utf8_len(name);
    match shard_digits(name) {
        Some((start, end, count)) => {
            lemma_trailing_digits_bound(name.take(end));
            text::lemma_byte_len_part(name, start, end);
            text::lemma_byte_len_part(name, 0, end);
            assert(name.subrange(0, end) =~= name.take(end));
            assert(name.take(end).take(start) =~= name.take(start));
            text::lemma_byte_len_part(name.take(end), 0, start);
            assert(name.take(end).subrange(0, start) =~= name.take(start));
        },
        None => {},
    }
}

/// The byte span of the shard number in a name such as `model-00001-of-00033.gguf`,
/// and the shard count.
pub fn shard_span(file_name: &str) -> (span: Option<((usize, usize), usize)>)
    ensures
        match span {
            Some(((start, end), count)) => shard_bytes(file_name@) == Some(
                ((start as int, end as int), count as nat),
            ),
            None => shard_bytes(file_name@) is None,
        },
{
    proof {
        reveal_strlit("-of-");
    }
    let name = text::chars_of(file_name);
    let of: usize = match find_text(name.as_slice(), "-of-") {
        Some(of) => of,
        None => {
            return None;
        },
    };
    let mut start: usize = of;
    while start > 0 && digit_at(name.as_slice(), start - 1)
        invariant
            start <= of <= name@.len(),
            forall|i: int| start <= i < of ==> number::is_digit(#[trigger] name@[i]),
        decreases start,
    {
        start = start - 1;
    }
    let ghost head = name@.take(of as int);
    proof {
        assert forall|i: int| start <= i < head.len() implies number::is_digit(
            #[trigger] head[i],
        ) by {
            assert(number::is_digit(name@[i]));
        }
        lemma_trailing_digits(head, of - start);
    }
    assert(of + 4 <= name.len());
    let tail = slice_subrange(name.as_slice(), of + 4, name.len());
    assert(tail@ =~= name@.skip(of + 4));
    let mut digits: usize = 0;
    while digits < tail.len() && digit_at(tail, digits)
        invariant
            digits <= tail@.len(),
            forall|i: int| 0 <= i < digits ==> number::is_digit(#[trigger] tail@[i]),
        decreases tail@.len() - digits,
    {
        digits = digits + 1;
    }
    proof {
        lemma_leading_digits(tail@, digits as int);
        assert(tail@.subrange(0, digits as int) =~= tail@.take(digits as int));
    }
    let index = number::read_unsigned(
        slice_subrange(name.as_slice(), start, of),
        usize::MAX as u64,
    );
    let count = number::read_unsigned(slice_subrange(tail, 0, digits), usize::MAX as u64);
    match (index, count) {
        (Some(index), Some(count)) => {
            if index <= count {
                let size: usize = file_name.as_bytes().len();
                proof {
                    text::lemma_byte_len_is_utf8_len(name@);
                    assert(size == text::byte_len(name@));
                    text::lemma_byte_len_part(name@, 0, start as int);
                    text::lemma_byte_len_part(name@, 0, of as int);
                    assert(name@.subrange(0, start as int) =~= name@.take(start as int));
                    assert(name@.subrange(0, of as int) =~= name@.take(of as int));
                }
                let first: usize = text::count_bytes(
                    slice_subrange(name.as_slice(), 0, start),
                ) as usize;
                let end: usize = text::count_bytes(slice_subrange(name.as_slice(), 0, of)) as usize;
                Some(((first, end), count as usize))
            } else {
                None
            }
        },
        _ => None,
    }
}

/// A file of a directory: its name, and its size in bytes where that can be read.
#[derive(Debug, Clone, PartialEq, Eq)]
pub struct Sibling {
    pub name: String,
    pub size: Option<u64>,
}

/// Whether a file name, given by its bytes, differs from a shard's name at most in the
/// bytes from `start` to `end`.
pub open spec fn is_shard_of(name: Seq<u8>, shard: Seq<u8>, start: int, end: int) -> bool {
    &&& name.len() == shard.len()
    &&& name.take(start) == shard.take(start)
    &&& name.skip(end) == shard.skip(end)
}

/// The sizes of those files that are shards of the set that `shard` belongs to.
pub open spec fn shard_sizes(
    siblings: Seq<Sibling>,
    shard: Seq<u8>,
    start: int,
    end: int,
) -> Seq<Option<u64>>
    decreases siblings.len(),
{
    if siblings.len() == 0 {
        Seq::empty()
    } else {
        let sizes = shard_sizes(siblings.drop_last(), shard, start, end);
        if is_shard_of(
            vstd::utf8::encode_utf8(siblings.last().name@),
            shard,
            start,
            end,
        ) {
            sizes.push(siblings.last().size)
        } else {
            sizes
        }
    }
}

/// The sum of the sizes that are known.
pub open spec fn known_total(sizes: Seq<Option<u64>>) -> nat
    decreases sizes.len(),
{
    if sizes.len() == 0 {
        0
    } else {
        known_total(sizes.drop_last()) + (match sizes.last() {
            Some(size) => size as nat,
            None => 0,
        })
    }
}

/// The size of a shard set: none where it has no file, or the size of one of its files
/// is not known.
pub open spec fn shard_total(sizes: Seq<Option<u64>>) -> Option<nat> {
    if sizes.len() > 0 && !sizes.contains(None) {
        Some(known_total(sizes))
    } else {
        None
    }
}

/// A size as a number without bound.
pub open spec fn size_of(size: Option<u64>) -> Option<nat> {
    match size {
        Some(size) => Some(size as nat),
        None => None,
    }
}

fn same_bytes(a: &[u8], b: &[u8], from: usize, to: usize) -> (same: bool)
    requires
        from <= to <= a@.len(),
        a@.len() == b@.len(),
    ensures
        same == (a@.subrange(from as int, to as int) == b@.subrange(from as int, to as int)),
{
    let ghost part = a@.subrange(from as int, to as int);
    let ghost other = b@.subrange(from as int, to as int);
    for i in from..to
        invariant
            to <= a@.len(),
            a@.len() == b@.len(),
            part == a@.subrange(from as int, to as int),
            other == b@.subrange(from as int, to as int),
            forall|j: int| from <= j < i ==> a@[j] == b@[j],
    {
        if a[i] != b[i] {
            assert(part[i - from] != other[i - from]);
            return false;
        }
    }
    assert(part =~= other);
    true
}

proof fn lemma_known_total_grows(
    siblings: Seq<Sibling>,
    shard: Seq<u8>,
    start: int,
    end: int,
    n: int,
)
    requires
        0 <= n <= siblings.len(),
    ensures
        known_total(shard_sizes(siblings.take(n), shard, start, end)) <= known_total(
            shard_sizes(siblings, shard, start, end),
        ),
        shard_sizes(siblings.take(n), shard, start, end).contains(None) ==> shard_sizes(
            siblings,
            shard,
            start,
            end,
        ).contains(None),
    decreases siblings.len(),
{
    if n == siblings.len() {
        assert(siblings.take(n) =~= siblings);
    } else {
        let shorter = siblings.drop_last();
        lemma_known_total_grows(shorter, shard, start, end, n);
        assert(shorter.take(n) =~= siblings.take(n));
        let sizes = shard_sizes(shorter, shard, start, end);
        let longer = sizes.push(siblings.last().size);
        assert(longer.drop_last() =~= sizes);
        if sizes.contains(None) {
            let i = choose|i: int| 0 <= i < sizes.len() && sizes[i] is None;
            assert(longer[i] is None);
            assert(longer.contains(None));
        }
    }
}

/// Whether a file is a shard of the set that `shard` belongs to.
fn shard_name(name: &[u8], shard: &[u8], start: usize, end: usize) -> (found: bool)
    requires
        start <= shard@.len(),
        end <= shard@.len(),
    ensures
        found == is_shard_of(name@, shard@, start as int, end as int),
{
    proof {
        assert(name@.subrange(0, start as int) =~= name@.take(start as int));
        assert(shard@.subrange(0, start as int) =~= shard@.take(start as int));
        if name@.len() == shard@.len() {
            assert(name@.subrange(end as int, name@.len() as int) =~= name@.skip(end as int));
            assert(shard@.subrange(end as int, shard@.len() as int) =~= shard@.skip(end as int));
        }
    }
    name.len() == shard.len() && same_bytes(name, shard, 0, start) && same_bytes(
        name,
        shard,
        end,
        shard.len(),
    )
}

/// The size of the shard set of `file_name`, whose shard number stands at the bytes
/// from `index_start` to `index_end`, summed over the files of its directory.
pub fn sum_shards(
    file_name: &str,
    index_start: usize,
    index_end: usize,
    siblings: &[Sibling],
) -> (total: Option<u64>)
    requires
        index_start <= vstd::utf8::encode_utf8(file_name@).len(),
        index_end <= vstd::utf8::encode_utf8(file_name@).len(),
        known_total(
            shard_sizes(
                siblings@,
                vstd::utf8::encode_utf8(file_name@),
                index_start as int,
                index_end as int,
            ),
        ) <= u64::MAX,
    ensures
        size_of(total) == shard_total(
            shard_sizes(
                siblings@,
                vstd::utf8::encode_utf8(file_name@),
                index_start as int,
                index_end as int,
            ),
        ),
{
    let shard = file_name.as_bytes();
    let ghost start = index_start as int;
    let ghost end = index_end as int;
    let mut total: u64 = 0;
    let mut found: bool = false;
    for i in 0..siblings.len()
        invariant
            shard@ == vstd::utf8::encode_utf8(file_name@),
            start == index_start,
            end == index_end,
            index_start <= shard@.len(),
            index_end <= shard@.len(),
            known_total(shard_sizes(siblings@, shard@, start, end)) <= u64::MAX,
            ({
                let sizes = shard_sizes(siblings@.take(i as int), shard@, start, end);
                &&& total == known_total(sizes)
                &&& found == (sizes.len() > 0)
                &&& !sizes.contains(None)
            }),
    {
        let ghost sizes = shard_sizes(siblings@.take(i as int), shard@, start, end);
        proof {
            assert(siblings@.take(i + 1).drop_last() =~= siblings@.take(i as int));
            lemma_known_total_grows(siblings@, shard@, start, end, i + 1);
            assert(sizes.push(siblings@[i as int].size).drop_last() =~= sizes);
        }
        if shard_name(siblings[i].name.as_str().as_bytes(), shard, index_start, index_end) {
            let ghost longer = sizes.push(siblings@[i as int].size);
            match siblings[i].size {
                Some(size) => {
                    total = total + size;
                    found = true;
                    proof {
                        if longer.contains(None) {
                            let j = choose|j: int| 0 <= j < longer.len() && longer[j] is None;
                            assert(sizes[j] is None);
                            assert(sizes.contains(None));
                        }
                    }
                },
                None => {
                    assert(longer[sizes.len() as int] is None);
                    assert(longer.contains(None));
                    return None;
                },
            }
        }
    }
    assert(siblings@.take(siblings@.len() as int) =~= siblings@);
    if found {
        Some(total)
    } else {
        None
    }
}

/// The size of the model in a file: that of its whole shard set where the name is that
/// of one shard of several and the set's size is known, and its own size otherwise.
pub open spec fn model_size(
    file_name: Seq<char>,
    siblings: Seq<Sibling>,
    own_size: Option<u64>,
) -> Option<nat> {
    let bytes = vstd::utf8::encode_utf8(file_name);
    match shard_bytes(file_name) {
        Some(((start, end), count)) => {
            let total = shard_total(shard_sizes(siblings, bytes, start, end));
            if count > 1 && total is Some {
                total
            } else {
                size_of(own_size)
            }
        },
        None => size_of(own_size),
    }
}

/// Whether the sizes of a model's shards add up within 64 bits.
pub open spec fn sizes_fit(file_name: Seq<char>, siblings: Seq<Sibling>) -> bool {
    match shard_bytes(file_name) {
        Some(((start, end), count)) => count > 1 ==> known_total(
            shard_sizes(siblings, vstd::utf8::encode_utf8(file_name), start, end),
        ) <= u64::MAX,
        None => true,
    }
}

/// Whether the sizes of a model's shards add up within 64 bits, as [`disk_size`] needs it.
pub fn shard_sizes_fit(file_name: &str, siblings: &[Sibling]) -> (fit: bool)
    ensures
        fit == sizes_fit(file_name@, siblings@),
{
    let (index_start, index_end) = match shard_span(file_name) {
        Some((span, count)) => {
            if count <= 1 {
                return true;
            }
            span
        },
        None => {
            return true;
        },
    };
    let shard = file_name.as_bytes();
    let ghost start = index_start as int;
    let ghost end = index_end as int;
    proof {
        lemma_shard_bytes(file_name@);
    }
    let mut left: u64 = u64::MAX;
    for i in 0..siblings.len()
        invariant
            shard@ == vstd::utf8::encode_utf8(file_name@),
            start == index_start,
            end == index_end,
            index_start <= shard@.len(),
            index_end <= shard@.len(),
            sizes_fit(file_name@, siblings@) == (known_total(
                shard_sizes(siblings@, shard@, start, end),
            ) <= u64::MAX),
            left == u64::MAX - known_total(
                shard_sizes(siblings@.take(i as int), shard@, start, end),
            ),
    {
        let ghost sizes = shard_sizes(siblings@.take(i as int), shard@, start, end);
        proof {
            assert(siblings@.take(i + 1).drop_last() =~= siblings@.take(i as int));
            lemma_known_total_grows(siblings@, shard@, start, end, i + 1);
            assert(sizes.push(siblings@[i as int].size).drop_last() =~= sizes);
        }
        if shard_name(siblings[i].name.as_str().as_bytes(), shard, index_start, index_end) {
            match siblings[i].size {
                Some(size) => {
                    if size > left {
                        return false;
                    }
                    left = left - size;
                },
                None => {},
            }
        }
    }
    assert(siblings@.take(siblings@.len() as int) =~= siblings@);
    true
}

/// The size of the model in a file, given the files of its directory and its own size.
pub fn disk_size(file_name: &str, siblings: &[Sibling], own_size: Option<u64>) -> (size: Option<
    u64,
>)
    requires
        sizes_fit(file_name@, siblings@),
    ensures
        size_of(size) == model_size(file_name@, siblings@, own_size),
{
    match shard_span(file_name) {
        Some(((start, end), count)) => {
            if count > 1 {
                proof {
                    lemma_shard_bytes(file_name@);
                }
                match sum_shards(file_name, start, end, siblings) {
                    Some(total) => Some(total),
                    None => own_size,
                }
            } else {
                own_size
            }
        },
        None => own_size,
    }
}

} // verus!
