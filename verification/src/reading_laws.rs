//! What a line says to a reader of the file does not depend on a carriage return at its
//! end.

use crate::block_laws;
use crate::cmd_block;
use crate::edit_laws;
use crate::swap_yaml;
use crate::text;
use vstd::prelude::*;

verus! {

/// Whether two lines say the same to a reader of the entries.
pub open spec fn reads_alike(x: Seq<char>, y: Seq<char>) -> bool {
    &&& swap_yaml::opens_models(x) == swap_yaml::opens_models(y)
    &&& swap_yaml::is_top_level(x) == swap_yaml::is_top_level(y)
    &&& swap_yaml::key_of_line(x) == swap_yaml::key_of_line(y)
    &&& swap_yaml::disables(x) == swap_yaml::disables(y)
    &&& swap_yaml::is_disabled_key(x) == swap_yaml::is_disabled_key(y)
    &&& swap_yaml::path_on_line(x) == swap_yaml::path_on_line(y)
    &&& cmd_block::has_cmd_key(x) == cmd_block::has_cmd_key(y)
    &&& cmd_block::is_blank(x) == cmd_block::is_blank(y)
    &&& !cmd_block::is_blank(x) ==> cmd_block::indent_of(x) == cmd_block::indent_of(y)
}

/// Whether the lines of two files say the same to a reader of the entries.
pub open spec fn read_alike(a: Seq<Seq<char>>, b: Seq<Seq<char>>) -> bool {
    a.len() == b.len() && forall|i: int|
        #![trigger a[i]]
        #![trigger b[i]]
        0 <= i < a.len() ==> reads_alike(a[i], b[i])
}

proof fn lemma_trim_start_push(s: Seq<char>, w: char)
    requires
        text::is_white(w),
    ensures
        text::trim_start(s).len() == 0 ==> text::trim_start(s.push(w)).len() == 0,
        text::trim_start(s).len() > 0 ==> text::trim_start(s.push(w)) == text::trim_start(s).push(
            w,
        ),
    decreases s.len(),
{
    if s.len() == 0 {
        assert(s.push(w).drop_first() =~= Seq::<char>::empty());
        assert(text::trim_start(s.push(w).drop_first()).len() == 0);
    } else if text::is_white(s[0]) {
        lemma_trim_start_push(s.drop_first(), w);
        assert(s.push(w).drop_first() =~= s.drop_first().push(w));
    }
}

proof fn lemma_trim_end_push(s: Seq<char>, w: char)
    requires
        text::is_white(w),
    ensures
        text::trim_end(s.push(w)) == text::trim_end(s),
{
    assert(s.push(w).drop_last() =~= s);
}

proof fn lemma_trim_push(s: Seq<char>, w: char)
    requires
        text::is_white(w),
    ensures
        text::trim(s.push(w)) == text::trim(s),
{
    lemma_trim_start_push(s, w);
    lemma_trim_end_push(text::trim_start(s), w);
    if text::trim_start(s).len() == 0 {
        assert(text::trim_start(s.push(w)) =~= text::trim_start(s));
    }
}

proof fn lemma_words_push(s: Seq<char>, w: char)
    requires
        text::is_white(w),
    ensures
        text::words(s.push(w)) == text::words(s),
    decreases s.len(),
{
    let rest = text::trim_start(s);
    lemma_trim_start_push(s, w);
    text::lemma_trim_start(s);
    if rest.len() > 0 {
        let more = rest.push(w);
        let n = text::word_len(rest) as int;
        text::lemma_word_len(rest);
        assert forall|i: int| 0 <= i < n implies !text::is_white(#[trigger] more[i]) by {
            assert(more[i] == rest[i]);
        }
        text::lemma_word_len_is(more, n);
        lemma_words_push(rest.skip(n), w);
        assert(more.take(n) =~= rest.take(n));
        assert(more.skip(n) =~= rest.skip(n).push(w));
    }
}

proof fn lemma_starts_push(s: Seq<char>, prefix: Seq<char>, w: char)
    requires
        prefix.len() > 0,
        prefix.last() != w,
    ensures
        text::starts_with(s.push(w), prefix) == text::starts_with(s, prefix),
{
    let n = prefix.len() as int;
    if n <= s.len() {
        assert(s.push(w).take(n) =~= s.take(n));
    } else if n == s.len() + 1 && text::starts_with(s.push(w), prefix) {
        assert(s.push(w).take(n).last() == w);
    }
}

proof fn lemma_without_prefixes_push(s: Seq<char>, prefix: Seq<char>, w: char)
    requires
        prefix.len() > 0,
        prefix.last() != w,
    ensures
        swap_yaml::without_prefixes(s.push(w), prefix) == swap_yaml::without_prefixes(
            s,
            prefix,
        ).push(w),
    decreases s.len(),
{
    lemma_starts_push(s, prefix, w);
    if text::starts_with(s, prefix) {
        let n = prefix.len() as int;
        lemma_without_prefixes_push(s.skip(n), prefix, w);
        assert(s.push(w).skip(n) =~= s.skip(n).push(w));
    }
}

/// A carriage return behind a line does not change which entry it opens.
proof fn lemma_key_push(x: Seq<char>)
    ensures
        swap_yaml::key_of_line(x.push('\r')) == swap_yaml::key_of_line(x),
{
    let y = x.push('\r');
    reveal_strlit("  ");
    lemma_starts_push(x, "  "@, '\r');
    if text::starts_with(x, "  "@) {
        let rest = x.skip(2);
        let more = y.skip(2);
        assert(more =~= rest.push('\r'));
        text::lemma_before(rest, ':');
        let colon = text::before(rest, ':') as int;
        if colon < rest.len() {
            assert forall|i: int| 0 <= i < colon implies more[i] != ':' by {
                assert(more[i] == rest[i]);
            }
            text::lemma_before_is(more, ':', colon);
            assert(more.take(colon) =~= rest.take(colon));
            assert(more.skip(colon + 1) =~= rest.skip(colon + 1).push('\r'));
            lemma_trim_push(rest.skip(colon + 1), '\r');
        } else {
            assert forall|i: int| 0 <= i < more.len() implies more[i] != ':' by {
                if i < rest.len() {
                    assert(more[i] == rest[i]);
                }
            }
            text::lemma_before_is(more, ':', more.len() as int);
        }
        if rest.len() > 0 {
            assert(more[0] == rest[0]);
        }
    }
}

/// A carriage return behind a line says nothing to a reader, unless the line opens the
/// section.
pub proof fn lemma_return_says_nothing(x: Seq<char>)
    requires
        !swap_yaml::is_top_level(x),
    ensures
        reads_alike(x, x.push('\r')),
{
    let y = x.push('\r');
    let kept = text::trim_start(x);
    let more = text::trim_start(y);
    reveal_strlit("models:");
    reveal_strlit("disabled:");
    reveal_strlit("cmd:");
    lemma_trim_end_push(x, '\r');
    lemma_trim_start_push(x, '\r');
    lemma_key_push(x);
    text::lemma_trim_start(x);
    text::lemma_trim_end(x);
    assert(!swap_yaml::opens_models(x)) by {
        if swap_yaml::opens_models(x) {
            assert(text::trim_end(x) == x);
        }
    }
    assert(!swap_yaml::opens_models(y)) by {
        assert(y.last() == '\r');
    }
    if kept.len() > 0 {
        lemma_starts_push(kept, "disabled:"@, '\r');
        lemma_starts_push(kept, "cmd:"@, '\r');
        lemma_without_prefixes_push(kept, "disabled:"@, '\r');
        lemma_trim_push(swap_yaml::without_prefixes(kept, "disabled:"@), '\r');
        lemma_words_push(kept, '\r');
        assert(y.take(y.len() - more.len()) =~= x.take(x.len() - kept.len()));
        assert(more[0] == kept[0]);
    } else {
        assert(more =~= kept);
        assert(cmd_block::is_blank(x)) by {
            if text::trim_end(x).len() > 0 {
                let i = text::trim_end(x).len() - 1;
                assert(x[i] == text::trim_end(x).last());
                assert(text::is_white(x[i]));
            }
        }
    }
}

/// A line says the same with and without the carriage return at its end.
pub proof fn lemma_bare_reads_alike(line: Seq<char>)
    requires
        !swap_yaml::is_top_level(line) || !swap_yaml::is_top_level(
            text::drop_carriage_return(line),
        ),
    ensures
        reads_alike(line, text::drop_carriage_return(line)),
{
    let bare = text::drop_carriage_return(line);
    if bare != line {
        assert(bare.push('\r') =~= line);
        lemma_trim_end_push(bare, '\r');
        lemma_return_says_nothing(bare);
    }
}

proof fn lemma_first_path_alike(a: Seq<Seq<char>>, b: Seq<Seq<char>>)
    requires
        read_alike(a, b),
    ensures
        swap_yaml::first_path(a) == swap_yaml::first_path(b),
    decreases a.len(),
{
    if a.len() > 0 {
        assert(reads_alike(a[0], b[0]));
        lemma_part_alike(a, b, 1, a.len() as int);
        assert(a.drop_first() =~= a.subrange(1, a.len() as int));
        assert(b.drop_first() =~= b.subrange(1, a.len() as int));
        lemma_first_path_alike(a.drop_first(), b.drop_first());
    }
}

proof fn lemma_part_alike(a: Seq<Seq<char>>, b: Seq<Seq<char>>, from: int, to: int)
    requires
        read_alike(a, b),
        0 <= from <= to <= a.len(),
    ensures
        read_alike(a.subrange(from, to), b.subrange(from, to)),
{
    let x = a.subrange(from, to);
    let y = b.subrange(from, to);
    assert forall|i: int| 0 <= i < x.len() implies reads_alike(x[i], y[i]) by {
        assert(reads_alike(a[from + i], b[from + i]));
    }
}

/// The command of an entry lies at the same place in lines that say the same.
proof fn lemma_command_alike(a: Seq<Seq<char>>, b: Seq<Seq<char>>)
    requires
        read_alike(a, b),
    ensures
        read_alike(swap_yaml::command_lines(a), swap_yaml::command_lines(b)),
{
    let has_key = |line: Seq<char>| cmd_block::has_cmd_key(line);
    text::lemma_first_index(a, 0, has_key);
    let key = text::first_index(a, 0, has_key);
    assert forall|i: int| 0 <= i < key implies !has_key(#[trigger] b[i]) by {
        assert(reads_alike(a[i], b[i]));
        assert(!has_key(a[i]));
    }
    if key < a.len() {
        assert(has_key(a[key]));
        assert(reads_alike(a[key], b[key]));
        assert(has_key(b[key]));
    }
    text::lemma_first_index_is(b, 0, has_key, key);
    if key < a.len() {
        lemma_key_is_not_blank(a[key]);
        let indent = cmd_block::indent_of(a[key]);
        assert(cmd_block::indent_of(b[key]) == indent);
        let ends = |line: Seq<char>| cmd_block::ends_block(line, indent);
        text::lemma_first_index(a, key + 1, ends);
        let to = text::first_index(a, key + 1, ends);
        assert forall|i: int| key + 1 <= i < to implies !ends(#[trigger] b[i]) by {
            assert(reads_alike(a[i], b[i]));
            assert(!ends(a[i]));
        }
        if to < a.len() {
            assert(ends(a[to]));
            assert(reads_alike(a[to], b[to]));
            assert(ends(b[to]));
        }
        text::lemma_first_index_is(b, key + 1, ends, to);
        block_laws::lemma_blank_tail_bounds(a, key + 1, to);
        let stop = cmd_block::without_blank_tail(a, key + 1, to);
        assert forall|i: int| stop <= i < to implies cmd_block::is_blank(#[trigger] b[i]) by {
            assert(reads_alike(a[i], b[i]));
        }
        if stop > key + 1 {
            assert(reads_alike(a[stop - 1], b[stop - 1]));
        }
        cmd_block::lemma_blank_tail(b, key + 1, to, stop);
        lemma_part_alike(a, b, key, stop);
    }
}

/// A line with a key is not blank.
proof fn lemma_key_is_not_blank(line: Seq<char>)
    requires
        cmd_block::has_cmd_key(line),
    ensures
        !cmd_block::is_blank(line),
{
    reveal_strlit("cmd:");
    text::lemma_trim_start(line);
    text::lemma_trim_end(line);
    let kept = text::trim_start(line);
    assert(kept.len() >= 4);
    assert(line[line.len() - kept.len()] == kept[0]);
}

proof fn lemma_entry_alike(id: Seq<char>, a: Seq<Seq<char>>, b: Seq<Seq<char>>)
    requires
        read_alike(a, b),
    ensures
        swap_yaml::entry_of(id, a) == swap_yaml::entry_of(id, b),
{
    lemma_command_alike(a, b);
    lemma_first_path_alike(swap_yaml::command_lines(a), swap_yaml::command_lines(b));
    if swap_yaml::any_disables(a) {
        let i = choose|i: int| 0 <= i < a.len() && swap_yaml::disables(#[trigger] a[i]);
        assert(reads_alike(a[i], b[i]));
        assert(swap_yaml::disables(b[i]));
    }
    if swap_yaml::any_disables(b) {
        let i = choose|i: int| 0 <= i < b.len() && swap_yaml::disables(#[trigger] b[i]);
        assert(reads_alike(a[i], b[i]));
        assert(swap_yaml::disables(a[i]));
    }
}

proof fn lemma_entries_alike(a: Seq<Seq<char>>, b: Seq<Seq<char>>, from: int)
    requires
        read_alike(a, b),
        0 <= from <= a.len(),
    ensures
        swap_yaml::entries_from(a, from) == swap_yaml::entries_from(b, from),
    decreases a.len() - from,
{
    if from < a.len() {
        let keyed = |line: Seq<char>| swap_yaml::key_of_line(line) is Some;
        assert(reads_alike(a[from], b[from]));
        match swap_yaml::key_of_line(a[from]) {
            Some(id) => {
                text::lemma_first_index(a, from + 1, keyed);
                let end = swap_yaml::entry_end(a, from);
                assert forall|i: int| from + 1 <= i < end implies !keyed(#[trigger] b[i]) by {
                    assert(reads_alike(a[i], b[i]));
                    assert(!keyed(a[i]));
                }
                if end < a.len() {
                    assert(keyed(a[end]));
                    assert(reads_alike(a[end], b[end]));
                    assert(keyed(b[end]));
                }
                text::lemma_first_index_is(b, from + 1, keyed, end);
                lemma_part_alike(a, b, from + 1, end);
                lemma_entry_alike(id, a.subrange(from + 1, end), b.subrange(from + 1, end));
                lemma_entries_alike(a, b, end);
            },
            None => {
                lemma_entries_alike(a, b, from + 1);
            },
        }
    }
}

/// Files whose lines say the same have the same entries, and each entry at the same place.
pub proof fn alike_files_have_the_same_entries(
    a: Seq<Seq<char>>,
    b: Seq<Seq<char>>,
    id: Seq<char>,
)
    requires
        read_alike(a, b),
    ensures
        swap_yaml::section_span(a) == swap_yaml::section_span(b),
        swap_yaml::span_of_entry(a, id) == swap_yaml::span_of_entry(b, id),
        swap_yaml::entries_of_lines(a) == swap_yaml::entries_of_lines(b),
{
    edit_laws::lemma_section_bounds(a);
    edit_laws::lemma_section_bounds(b);
    match swap_yaml::section_span(a) {
        Some((start, end)) => {
            assert forall|i: int| 0 <= i < a.len() implies reads_alike(a[i], #[trigger] b[i]) by {}
            assert(reads_alike(a[start], b[start]));
            if end < a.len() {
                assert(reads_alike(a[end], b[end]));
            }
            assert(edit_laws::bounds_section(b, start, end));
            edit_laws::lemma_section_is(b, start, end);
            let x = a.subrange(0, end);
            let y = b.subrange(0, end);
            lemma_part_alike(a, b, 0, end);
            assert(a.take(end) =~= x);
            assert(b.take(end) =~= y);
            lemma_entries_alike(x, y, start + 1);
            let called = |line: Seq<char>| swap_yaml::key_of_line(line) == Some(id);
            let keyed = |line: Seq<char>| swap_yaml::key_of_line(line) is Some;
            text::lemma_first_index(x, start + 1, called);
            let s = text::first_index(x, start + 1, called);
            assert forall|i: int| start + 1 <= i < s implies !called(#[trigger] y[i]) by {
                assert(reads_alike(x[i], y[i]));
                assert(!called(x[i]));
            }
            if s < end {
                assert(called(x[s]));
                assert(reads_alike(x[s], y[s]));
                assert(called(y[s]));
            }
            text::lemma_first_index_is(y, start + 1, called, s);
            if s < end {
                text::lemma_first_index(x, s + 1, keyed);
                let e = text::first_index(x, s + 1, keyed);
                assert forall|i: int| s + 1 <= i < e implies !keyed(#[trigger] y[i]) by {
                    assert(reads_alike(x[i], y[i]));
                    assert(!keyed(x[i]));
                }
                if e < end {
                    assert(keyed(x[e]));
                    assert(reads_alike(x[e], y[e]));
                    assert(keyed(y[e]));
                }
                text::lemma_first_index_is(y, s + 1, keyed, e);
            }
        },
        None => {
            match swap_yaml::section_span(b) {
                Some((start, end)) => {
                    assert(reads_alike(a[start], b[start]));
                },
                None => {},
            }
        },
    }
}

/// A line at the end of an entry that says no more than an empty one says nothing.
pub proof fn empty_last_line_says_nothing(id: Seq<char>, body: Seq<Seq<char>>)
    requires
        body.len() > 0,
        reads_alike(Seq::empty(), body.last()),
    ensures
        swap_yaml::entry_of(id, body.drop_last()) == swap_yaml::entry_of(id, body),
{
    let shorter = body.drop_last();
    let last = body.len() - 1;
    reveal_strlit("disabled:");
    reveal_strlit("cmd:");
    assert(!swap_yaml::disables(body[last]));
    assert(!cmd_block::has_cmd_key(body[last]));
    assert(cmd_block::is_blank(body[last]));
    if swap_yaml::any_disables(body) {
        let i = choose|i: int| 0 <= i < body.len() && swap_yaml::disables(#[trigger] body[i]);
        assert(shorter[i] == body[i]);
    }
    if swap_yaml::any_disables(shorter) {
        let i = choose|i: int| 0 <= i < shorter.len() && swap_yaml::disables(#[trigger] shorter[i]);
        assert(body[i] == shorter[i]);
    }
    let has_key = |line: Seq<char>| cmd_block::has_cmd_key(line);
    text::lemma_first_index(shorter, 0, has_key);
    let key = text::first_index(shorter, 0, has_key);
    assert forall|i: int| 0 <= i < key implies !has_key(#[trigger] body[i]) by {
        assert(!has_key(shorter[i]));
    }
    if key < last {
        assert(has_key(shorter[key]));
        assert(body[key] == shorter[key]);
        text::lemma_first_index_is(body, 0, has_key, key);
        let indent = cmd_block::indent_of(body[key]);
        let ends = |line: Seq<char>| cmd_block::ends_block(line, indent);
        text::lemma_first_index(shorter, key + 1, ends);
        let to = text::first_index(shorter, key + 1, ends);
        assert forall|i: int| key + 1 <= i < to implies !ends(#[trigger] body[i]) by {
            assert(!ends(shorter[i]));
        }
        assert(!ends(body[last]));
        let other = if to < last {
            to
        } else {
            last + 1
        };
        if to < last {
            assert(ends(shorter[to]));
            assert(body[to] == shorter[to]);
        }
        text::lemma_first_index_is(body, key + 1, ends, other);
        block_laws::lemma_blank_tail_bounds(shorter, key + 1, to);
        let stop = cmd_block::without_blank_tail(shorter, key + 1, to);
        assert forall|i: int| stop <= i < other implies cmd_block::is_blank(#[trigger] body[i]) by {
            if i < to {
                assert(shorter[i] == body[i]);
            }
        }
        if stop > key + 1 {
            assert(shorter[stop - 1] == body[stop - 1]);
        }
        cmd_block::lemma_blank_tail(body, key + 1, other, stop);
        assert(shorter.subrange(key, stop) =~= body.subrange(key, stop));
    } else {
        assert forall|i: int| 0 <= i < body.len() implies !has_key(#[trigger] body[i]) by {}
        text::lemma_first_index_is(body, 0, has_key, body.len() as int);
    }
}

} // verus!
