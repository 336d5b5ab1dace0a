//! What edits of one entry of the file keep: the entry stays where it is, and every
//! other entry stays as it was.

use crate::swap_yaml;
use crate::swap_yaml::EntrySpec;
use crate::text;
use vstd::prelude::*;

verus! {

/// The lines with those from `a` to `b` replaced by others.
pub open spec fn spliced(
    lines: Seq<Seq<char>>,
    a: int,
    part: Seq<Seq<char>>,
    b: int,
) -> Seq<Seq<char>> {
    lines.take(a) + part + lines.skip(b)
}

/// Whether a line can stand inside an entry: it neither ends the section nor opens an
/// entry.
pub open spec fn is_inner(line: Seq<char>) -> bool {
    !swap_yaml::is_top_level(line) && swap_yaml::key_of_line(line) is None
}

/// Whether every one of the lines can stand inside an entry.
pub open spec fn are_inner(lines: Seq<Seq<char>>) -> bool {
    forall|i: int| 0 <= i < lines.len() ==> is_inner(#[trigger] lines[i])
}

/// Whether `start` and `end` bound the section of model entries.
pub open spec fn bounds_section(lines: Seq<Seq<char>>, start: int, end: int) -> bool {
    &&& 0 <= start < end <= lines.len()
    &&& forall|i: int| 0 <= i < start ==> !swap_yaml::opens_models(#[trigger] lines[i])
    &&& swap_yaml::opens_models(lines[start])
    &&& forall|i: int| start < i < end ==> !swap_yaml::is_top_level(#[trigger] lines[i])
    &&& end < lines.len() ==> swap_yaml::is_top_level(lines[end])
}

/// Whether `s` and `e` bound the first entry with key `id` of a section.
pub open spec fn bounds_entry(
    lines: Seq<Seq<char>>,
    id: Seq<char>,
    start: int,
    end: int,
    s: int,
    e: int,
) -> bool {
    &&& start < s < e <= end
    &&& forall|i: int| start < i < s ==> swap_yaml::key_of_line(#[trigger] lines[i]) != Some(id)
    &&& swap_yaml::key_of_line(lines[s]) == Some(id)
    &&& forall|i: int| s < i < e ==> swap_yaml::key_of_line(#[trigger] lines[i]) is None
    &&& e < end ==> swap_yaml::key_of_line(lines[e]) is Some
}

/// The section is bounded by the `models:` line and the next top-level key.
pub proof fn lemma_section_bounds(lines: Seq<Seq<char>>)
    ensures
        match swap_yaml::section_span(lines) {
            Some((start, end)) => bounds_section(lines, start, end),
            None => forall|i: int|
                0 <= i < lines.len() ==> !swap_yaml::opens_models(#[trigger] lines[i]),
        },
{
    let opens = |line: Seq<char>| swap_yaml::opens_models(line);
    let top = |line: Seq<char>| swap_yaml::is_top_level(line);
    text::lemma_first_index(lines, 0, opens);
    let start = text::first_index(lines, 0, opens);
    assert forall|i: int| 0 <= i < start implies !swap_yaml::opens_models(#[trigger] lines[i]) by {
        assert(!opens(lines[i]));
    }
    if start < lines.len() {
        text::lemma_first_index(lines, start + 1, top);
        let end = text::first_index(lines, start + 1, top);
        assert forall|i: int| start < i < end implies !swap_yaml::is_top_level(
            #[trigger] lines[i],
        ) by {
            assert(!top(lines[i]));
        }
    }
}

/// Lines that bound a section are what `section_span` finds.
pub proof fn lemma_section_is(lines: Seq<Seq<char>>, start: int, end: int)
    requires
        bounds_section(lines, start, end),
    ensures
        swap_yaml::section_span(lines) == Some((start, end)),
{
    let opens = |line: Seq<char>| swap_yaml::opens_models(line);
    let top = |line: Seq<char>| swap_yaml::is_top_level(line);
    text::lemma_first_index_is(lines, 0, opens, start);
    text::lemma_first_index_is(lines, start + 1, top, end);
}

/// The entry is bounded by its key line and the next one.
pub proof fn lemma_entry_bounds(lines: Seq<Seq<char>>, id: Seq<char>)
    ensures
        match swap_yaml::span_of_entry(lines, id) {
            Some((s, e)) => match swap_yaml::section_span(lines) {
                Some((start, end)) => bounds_section(lines, start, end) && bounds_entry(
                    lines,
                    id,
                    start,
                    end,
                    s,
                    e,
                ),
                None => false,
            },
            None => true,
        },
{
    lemma_section_bounds(lines);
    match swap_yaml::section_span(lines) {
        Some((start, end)) => {
            let section = lines.take(end);
            let called = |line: Seq<char>| swap_yaml::key_of_line(line) == Some(id);
            let keyed = |line: Seq<char>| swap_yaml::key_of_line(line) is Some;
            text::lemma_first_index(section, start + 1, called);
            let s = text::first_index(section, start + 1, called);
            if s < end {
                text::lemma_first_index(section, s + 1, keyed);
                let e = text::first_index(section, s + 1, keyed);
                assert forall|i: int| start < i < s implies swap_yaml::key_of_line(
                    #[trigger] lines[i],
                ) != Some(id) by {
                    assert(!called(section[i]));
                }
                assert forall|i: int| s < i < e implies swap_yaml::key_of_line(
                    #[trigger] lines[i],
                ) is None by {
                    assert(!keyed(section[i]));
                }
            }
        },
        None => {},
    }
}

/// Lines that bound an entry are what `span_of_entry` finds.
pub proof fn lemma_entry_is(
    lines: Seq<Seq<char>>,
    id: Seq<char>,
    start: int,
    end: int,
    s: int,
    e: int,
)
    requires
        bounds_section(lines, start, end),
        bounds_entry(lines, id, start, end, s, e),
    ensures
        swap_yaml::span_of_entry(lines, id) == Some((s, e)),
{
    lemma_section_is(lines, start, end);
    let section = lines.take(end);
    let called = |line: Seq<char>| swap_yaml::key_of_line(line) == Some(id);
    let keyed = |line: Seq<char>| swap_yaml::key_of_line(line) is Some;
    text::lemma_first_index_is(section, start + 1, called, s);
    text::lemma_first_index_is(section, s + 1, keyed, e);
}

/// The bounds after lines inside an entry were replaced.
proof fn lemma_spliced_bounds(
    lines: Seq<Seq<char>>,
    id: Seq<char>,
    start: int,
    end: int,
    s: int,
    e: int,
    a: int,
    part: Seq<Seq<char>>,
    b: int,
)
    requires
        bounds_section(lines, start, end),
        bounds_entry(lines, id, start, end, s, e),
        s < a <= b <= e,
        are_inner(part),
    ensures
        ({
            let d = part.len() - (b - a);
            &&& bounds_section(spliced(lines, a, part, b), start, end + d)
            &&& bounds_entry(spliced(lines, a, part, b), id, start, end + d, s, e + d)
        }),
{
    let d = part.len() - (b - a);
    let after = spliced(lines, a, part, b);
    assert forall|i: int| 0 <= i < after.len() implies #[trigger] after[i] == if i < a {
        lines[i]
    } else if i < a + part.len() {
        part[i - a]
    } else {
        lines[i - d]
    } by {}
    assert forall|i: int| start < i < end + d implies !swap_yaml::is_top_level(
        #[trigger] after[i],
    ) by {
        if a <= i < a + part.len() {
            assert(is_inner(part[i - a]));
        }
    }
    assert forall|i: int| s < i < e + d implies swap_yaml::key_of_line(
        #[trigger] after[i],
    ) is None by {
        if a <= i < a + part.len() {
            assert(is_inner(part[i - a]));
        }
    }
}

/// Replacing lines inside an entry keeps the entry where it is; its end moves with the
/// number of its lines.
pub proof fn edited_entry_stays(
    lines: Seq<Seq<char>>,
    id: Seq<char>,
    a: int,
    part: Seq<Seq<char>>,
    b: int,
)
    requires
        match swap_yaml::span_of_entry(lines, id) {
            Some((s, e)) => s < a <= b <= e,
            None => false,
        },
        are_inner(part),
    ensures
        match swap_yaml::span_of_entry(lines, id) {
            Some((s, e)) => swap_yaml::span_of_entry(spliced(lines, a, part, b), id) == Some(
                (s, e + part.len() - (b - a)),
            ),
            None => false,
        },
{
    lemma_entry_bounds(lines, id);
    let (start, end) = swap_yaml::section_span(lines)->0;
    let (s, e) = swap_yaml::span_of_entry(lines, id)->0;
    let d = part.len() - (b - a);
    lemma_spliced_bounds(lines, id, start, end, s, e, a, part, b);
    lemma_entry_is(spliced(lines, a, part, b), id, start, end + d, s, e + d);
}

proof fn lemma_first_index_shift(
    lines: Seq<Seq<char>>,
    other: Seq<Seq<char>>,
    from: int,
    d: int,
    pred: spec_fn(Seq<char>) -> bool,
)
    requires
        0 <= from <= lines.len(),
        0 <= from + d <= other.len(),
        lines.skip(from) == other.skip(from + d),
    ensures
        text::first_index(other, from + d, pred) == text::first_index(lines, from, pred) + d,
    decreases lines.len() - from,
{
    assert(lines.skip(from).len() == lines.len() - from);
    assert(other.skip(from + d).len() == other.len() - (from + d));
    if from < lines.len() {
        assert(lines.skip(from)[0] == other.skip(from + d)[0]);
        assert(lines.skip(from + 1) =~= lines.skip(from).skip(1));
        assert(other.skip(from + d + 1) =~= other.skip(from + d).skip(1));
        assert(lines[from] == other[from + d]);
        if !pred(lines[from]) {
            assert(from + 1 + d == from + d + 1);
            lemma_first_index_shift(lines, other, from + 1, d, pred);
            assert(text::first_index(other, from + d, pred) == text::first_index(
                other,
                from + d + 1,
                pred,
            ));
        }
    }
}

/// The entries behind an edit do not depend on how far they moved.
proof fn lemma_entries_shift(section: Seq<Seq<char>>, other: Seq<Seq<char>>, from: int, d: int)
    requires
        0 <= from <= section.len(),
        0 <= from + d <= other.len(),
        section.skip(from) == other.skip(from + d),
    ensures
        swap_yaml::entries_from(other, from + d) == swap_yaml::entries_from(section, from),
    decreases section.len() - from,
{
    assert(section.skip(from).len() == section.len() - from);
    assert(other.skip(from + d).len() == other.len() - (from + d));
    if from < section.len() {
        let keyed = |line: Seq<char>| swap_yaml::key_of_line(line) is Some;
        assert(section.skip(from)[0] == other.skip(from + d)[0]);
        assert(section.skip(from + 1) =~= section.skip(from).skip(1));
        assert(other.skip(from + d + 1) =~= other.skip(from + d).skip(1));
        assert(section[from] == other[from + d]);
        assert(from + 1 + d == from + d + 1);
        match swap_yaml::key_of_line(section[from]) {
            Some(id) => {
                lemma_first_index_shift(section, other, from + 1, d, keyed);
                text::lemma_first_index(section, from + 1, keyed);
                let end = swap_yaml::entry_end(section, from);
                assert(swap_yaml::entry_end(other, from + d) == end + d);
                assert(section.subrange(from + 1, end) =~= section.skip(from).subrange(
                    1,
                    end - from,
                ));
                assert(other.subrange(from + d + 1, end + d) =~= other.skip(from + d).subrange(
                    1,
                    end - from,
                ));
                assert(section.skip(end) =~= section.skip(from).skip(end - from));
                assert(other.skip(end + d) =~= other.skip(from + d).skip(end - from));
                lemma_entries_shift(section, other, end, d);
            },
            None => {
                lemma_entries_shift(section, other, from + 1, d);
                assert(swap_yaml::entries_from(other, from + d) == swap_yaml::entries_from(
                    other,
                    from + d + 1,
                ));
            },
        }
    }
}

/// The entries from position `from` on, where `other` differs from `section` only
/// inside the entry from `s` to `e`.
proof fn lemma_entries_edited(
    section: Seq<Seq<char>>,
    other: Seq<Seq<char>>,
    id: Seq<char>,
    from: int,
    s: int,
    e: int,
    d: int,
)
    requires
        0 <= from <= s < e <= section.len(),
        s < e + d <= other.len(),
        section.take(s + 1) == other.take(s + 1),
        section.skip(e) == other.skip(e + d),
        swap_yaml::key_of_line(section[s]) == Some(id),
        swap_yaml::entry_end(section, s) == e,
        swap_yaml::entry_end(other, s) == e + d,
        forall|i: int| from <= i < s ==> swap_yaml::key_of_line(#[trigger] section[i]) != Some(id),
    ensures
        match swap_yaml::entry_index(swap_yaml::entries_from(section, from), id, 0) {
            Some(n) => 0 <= n < swap_yaml::entries_from(section, from).len()
                && swap_yaml::entries_from(section, from)[n] == swap_yaml::entry_of(
                id,
                section.subrange(s + 1, e),
            ) && swap_yaml::entries_from(other, from) == swap_yaml::entries_from(
                section,
                from,
            ).update(n, swap_yaml::entry_of(id, other.subrange(s + 1, e + d))),
            None => false,
        },
    decreases s - from,
{
    let entries = swap_yaml::entries_from(section, from);
    assert forall|i: int| 0 <= i <= s implies section[i] == #[trigger] other[i] by {
        assert(section.take(s + 1)[i] == other.take(s + 1)[i]);
    }
    let keyed = |line: Seq<char>| swap_yaml::key_of_line(line) is Some;
    if from == s {
        lemma_entries_shift(section, other, e, d);
        let first = swap_yaml::entry_of(id, section.subrange(s + 1, e));
        let edited = swap_yaml::entry_of(id, other.subrange(s + 1, e + d));
        let rest = swap_yaml::entries_from(section, e);
        assert(entries == seq![first] + rest);
        assert(swap_yaml::entries_from(other, from) == seq![edited] + rest);
        assert(entries[0].id == id);
        assert(entries.update(0, edited) =~= seq![edited] + rest);
    } else {
        assert(other[from] == section[from]);
        match swap_yaml::key_of_line(section[from]) {
            Some(key) => {
                text::lemma_first_index(section, from + 1, keyed);
                let end = swap_yaml::entry_end(section, from);
                assert(end <= s) by {
                    if end > s {
                        assert(!keyed(section[s]));
                    }
                }
                assert forall|i: int| from + 1 <= i < end implies !keyed(#[trigger] other[i]) by {
                    assert(!keyed(section[i]));
                }
                assert(keyed(other[end]));
                text::lemma_first_index_is(other, from + 1, keyed, end);
                assert(swap_yaml::entry_end(other, from) == end);
                lemma_entries_edited(section, other, id, end, s, e, d);
                assert(section.subrange(from + 1, end) =~= other.subrange(from + 1, end));
                let first = swap_yaml::entry_of(key, section.subrange(from + 1, end));
                let rest = swap_yaml::entries_from(section, end);
                let n = swap_yaml::entry_index(rest, id, 0)->0;
                assert(entries =~= seq![first] + rest);
                assert(entries[0].id != id);
                lemma_entry_index_shift(first, rest, id, 0);
                assert(swap_yaml::entry_index(entries, id, 0) == Some(n + 1));
                let edited = swap_yaml::entry_of(id, other.subrange(s + 1, e + d));
                assert(seq![first] + rest.update(n, edited) =~= entries.update(n + 1, edited));
            },
            None => {
                lemma_entries_edited(section, other, id, from + 1, s, e, d);
            },
        }
    }
}

proof fn lemma_entry_index_shift(
    first: EntrySpec,
    rest: Seq<EntrySpec>,
    id: Seq<char>,
    from: int,
)
    requires
        0 <= from,
    ensures
        swap_yaml::entry_index(seq![first] + rest, id, from + 1) == (match swap_yaml::entry_index(
            rest,
            id,
            from,
        ) {
            Some(n) => Some(n + 1),
            None => None,
        }),
    decreases rest.len() - from,
{
    if from < rest.len() {
        assert((seq![first] + rest)[from + 1] == rest[from]);
        if rest[from].id != id {
            lemma_entry_index_shift(first, rest, id, from + 1);
        }
    }
}

/// Replacing lines inside an entry changes what is read of that entry, and of no other:
/// the list of entries stays the same but for the first entry with that id.
pub proof fn other_entries_stay(
    lines: Seq<Seq<char>>,
    id: Seq<char>,
    a: int,
    part: Seq<Seq<char>>,
    b: int,
)
    requires
        match swap_yaml::span_of_entry(lines, id) {
            Some((s, e)) => s < a <= b <= e,
            None => false,
        },
        are_inner(part),
    ensures
        match (
            swap_yaml::span_of_entry(lines, id),
            swap_yaml::entry_index(swap_yaml::entries_of_lines(lines), id, 0),
        ) {
            (Some((s, e)), Some(n)) => {
                let entries = swap_yaml::entries_of_lines(lines);
                let after = spliced(lines, a, part, b);
                &&& 0 <= n < entries.len()
                &&& entries[n] == swap_yaml::entry_of(id, lines.subrange(s + 1, e))
                &&& swap_yaml::entries_of_lines(after) == entries.update(
                    n,
                    swap_yaml::entry_of(
                        id,
                        after.subrange(s + 1, e + part.len() - (b - a)),
                    ),
                )
            },
            _ => false,
        },
{
    lemma_entry_bounds(lines, id);
    let (start, end) = swap_yaml::section_span(lines)->0;
    let (s, e) = swap_yaml::span_of_entry(lines, id)->0;
    let d = part.len() - (b - a);
    let after = spliced(lines, a, part, b);
    lemma_spliced_bounds(lines, id, start, end, s, e, a, part, b);
    lemma_section_is(after, start, end + d);
    lemma_entry_is(after, id, start, end + d, s, e + d);
    let section = lines.take(end);
    let other = after.take(end + d);
    assert(section.take(s + 1) =~= other.take(s + 1));
    assert(section.skip(e) =~= other.skip(e + d));
    lemma_entries_edited(section, other, id, start + 1, s, e, d);
    assert(section.subrange(s + 1, e) =~= lines.subrange(s + 1, e));
    assert(other.subrange(s + 1, e + d) =~= after.subrange(s + 1, e + d));
}

/// A comment opens no entry and ends no section.
pub proof fn comments_are_inner(line: Seq<char>)
    requires
        text::starts_with_char(text::trim_start(line), '#'),
    ensures
        is_inner(line),
{
    let kept = text::trim_start(line);
    text::lemma_trim_start(line);
    text::lemma_trim_end(line);
    reveal_strlit("  ");
    assert(line[line.len() - kept.len()] == '#');
    if kept.len() < line.len() {
        assert(text::is_white(line[0]));
    }
    if text::starts_with(line, "  "@) {
        assert(line[0] == line.take(2)[0] && line[1] == line.take(2)[1]);
        assert(line.len() - kept.len() >= 2);
        assert(line.skip(2)[0] == line[2]);
        if line.len() - kept.len() > 2 {
            assert(text::is_white(line[2]));
        }
    }
}

} // verus!
