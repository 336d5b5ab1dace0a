//! What switching an entry off and on does to the file.

use crate::block_laws;
use crate::cmd_block;
use crate::edit_laws;
use crate::line_laws;
use crate::reading_laws;
use crate::swap_yaml;
use crate::swap_yaml::EntrySpec;
use crate::text;
use vstd::prelude::*;

verus! {

/// Whether any of the lines has the active key `disabled:`.
pub open spec fn any_disabled_key(body: Seq<Seq<char>>) -> bool {
    exists|i: int| 0 <= i < body.len() && swap_yaml::is_disabled_key(#[trigger] body[i])
}

/// A line that starts with three spaces can stand inside an entry.
pub proof fn lemma_indented_is_inner(line: Seq<char>)
    requires
        line.len() >= 3,
        line[0] == ' ',
        line[1] == ' ',
        line[2] == ' ',
    ensures
        edit_laws::is_inner(line),
{
    text::lemma_trim_end(line);
    reveal_strlit("  ");
    assert(line.skip(2)[0] == ' ');
}

/// The line that switches an entry off does so, has no command, and can stand inside an
/// entry.
proof fn lemma_disabled_line()
    ensures
        swap_yaml::disables("    disabled: true"@),
        swap_yaml::is_disabled_key("    disabled: true"@),
        !cmd_block::has_cmd_key("    disabled: true"@),
        edit_laws::is_inner("    disabled: true"@),
        "    disabled: true"@.len() > 0,
        !"    disabled: true"@.contains('\n'),
        !line_laws::ends_with_return("    disabled: true"@),
{
    reveal_strlit("    disabled: true");
    reveal_strlit("disabled:");
    reveal_strlit("true");
    let line = "    disabled: true"@;
    let kept = line.skip(4);
    reveal_with_fuel(text::trim_start, 6);
    assert(line.drop_first().drop_first().drop_first().drop_first() =~= kept);
    assert(text::trim_start(line) == kept);
    assert(kept.take(9) =~= "disabled:"@);
    let rest = kept.skip(9);
    assert(rest[0] == ' ');
    assert(rest.len() == 5);
    assert(!text::starts_with(rest, "disabled:"@));
    reveal_with_fuel(swap_yaml::without_prefixes, 3);
    assert(swap_yaml::without_prefixes(kept, "disabled:"@) == rest);
    let value = rest.drop_first();
    assert(value =~= "true"@);
    assert(text::trim_start(rest) == value);
    assert(text::trim_end(value) == value);
    assert(value.take(4) =~= "true"@);
    reveal_strlit("cmd:");
    assert(kept[0] == 'd');
    assert(!cmd_block::has_cmd_key(line)) by {
        if cmd_block::has_cmd_key(line) {
            assert(kept.take(4)[0] == 'c');
        }
    }
    lemma_indented_is_inner(line);
}

/// Of the lines that are kept, none has the active key `disabled:`.
proof fn lemma_enabled_lines(body: Seq<Seq<char>>)
    ensures
        !any_disabled_key(swap_yaml::enabled_lines(body)),
        !swap_yaml::any_disables(swap_yaml::enabled_lines(body)),
        edit_laws::are_inner(body) ==> edit_laws::are_inner(swap_yaml::enabled_lines(body)),
        !any_disabled_key(body) ==> swap_yaml::enabled_lines(body) == body,
    decreases body.len(),
{
    if body.len() > 0 {
        let shorter = body.drop_last();
        let kept = swap_yaml::enabled_lines(shorter);
        lemma_enabled_lines(shorter);
        assert(forall|i: int| 0 <= i < shorter.len() ==> #[trigger] shorter[i] == body[i]);
        if edit_laws::are_inner(body) {
            assert(edit_laws::is_inner(body[body.len() - 1]));
            assert forall|i: int| 0 <= i < shorter.len() implies edit_laws::is_inner(
                #[trigger] shorter[i],
            ) by {
                assert(shorter[i] == body[i]);
            }
        }
        if !any_disabled_key(body) {
            assert(!swap_yaml::is_disabled_key(body[body.len() - 1]));
            assert(!any_disabled_key(shorter)) by {
                if any_disabled_key(shorter) {
                    let i = choose|i: int|
                        0 <= i < shorter.len() && swap_yaml::is_disabled_key(#[trigger] shorter[i]);
                    assert(swap_yaml::is_disabled_key(body[i]));
                }
            }
            assert(shorter.push(body.last()) =~= body);
        }
        let all = swap_yaml::enabled_lines(body);
        assert forall|i: int| 0 <= i < all.len() implies !swap_yaml::is_disabled_key(
            #[trigger] all[i],
        ) by {
            if i < kept.len() {
                assert(all[i] == kept[i]);
            }
        }
    }
}

/// A line with the active key `disabled:`, put before others, is what is removed again.
proof fn lemma_enabled_lines_front(line: Seq<char>, body: Seq<Seq<char>>)
    requires
        swap_yaml::is_disabled_key(line),
    ensures
        swap_yaml::enabled_lines(seq![line] + body) == swap_yaml::enabled_lines(body),
    decreases body.len(),
{
    let all = seq![line] + body;
    if body.len() == 0 {
        assert(all.drop_last() =~= Seq::<Seq<char>>::empty());
        reveal_with_fuel(swap_yaml::enabled_lines, 2);
    } else {
        assert(all.drop_last() =~= seq![line] + body.drop_last());
        lemma_enabled_lines_front(line, body.drop_last());
    }
}

/// Of lines that say the same, the same are kept.
proof fn lemma_enabled_lines_alike(a: Seq<Seq<char>>, b: Seq<Seq<char>>)
    requires
        reading_laws::read_alike(a, b),
    ensures
        reading_laws::read_alike(swap_yaml::enabled_lines(a), swap_yaml::enabled_lines(b)),
    decreases a.len(),
{
    if a.len() > 0 {
        let x = a.drop_last();
        let y = b.drop_last();
        assert forall|i: int| 0 <= i < x.len() implies reading_laws::reads_alike(
            x[i],
            #[trigger] y[i],
        ) by {
            assert(reading_laws::reads_alike(a[i], b[i]));
        }
        lemma_enabled_lines_alike(x, y);
        assert(reading_laws::reads_alike(a[a.len() - 1], b[b.len() - 1]));
        let kept = swap_yaml::enabled_lines(a);
        let other = swap_yaml::enabled_lines(b);
        assert forall|i: int| 0 <= i < kept.len() implies reading_laws::reads_alike(
            kept[i],
            #[trigger] other[i],
        ) by {
            if i < swap_yaml::enabled_lines(x).len() {
                assert(reading_laws::reads_alike(
                    swap_yaml::enabled_lines(x)[i],
                    swap_yaml::enabled_lines(y)[i],
                ));
            }
        }
    }
}

/// The lines of an entry below its key can stand inside an entry.
proof fn lemma_body_is_inner(lines: Seq<Seq<char>>, id: Seq<char>)
    ensures
        match swap_yaml::span_of_entry(lines, id) {
            Some((s, e)) => 0 < s < e <= lines.len() && edit_laws::are_inner(
                lines.subrange(s + 1, e),
            ) && !swap_yaml::is_top_level(lines[s]),
            None => true,
        },
{
    edit_laws::lemma_entry_bounds(lines, id);
    match swap_yaml::span_of_entry(lines, id) {
        Some((s, e)) => {
            let body = lines.subrange(s + 1, e);
            assert forall|i: int| 0 <= i < body.len() implies edit_laws::is_inner(
                #[trigger] body[i],
            ) by {
                assert(body[i] == lines[s + 1 + i]);
            }
        },
        None => {},
    }
}

/// A line without a command, put before others, does not change the command.
proof fn lemma_command_front(line: Seq<char>, body: Seq<Seq<char>>)
    requires
        !cmd_block::has_cmd_key(line),
    ensures
        swap_yaml::command_lines(seq![line] + body) == swap_yaml::command_lines(body),
{
    let all = seq![line] + body;
    let has_key = |line: Seq<char>| cmd_block::has_cmd_key(line);
    text::lemma_first_index(body, 0, has_key);
    let key = text::first_index(body, 0, has_key);
    assert forall|i: int| 0 <= i < key + 1 implies !has_key(#[trigger] all[i]) by {
        if i > 0 {
            assert(!has_key(body[i - 1]));
        }
    }
    if key < body.len() {
        assert(has_key(body[key]));
        assert(all[key + 1] == body[key]);
    }
    text::lemma_first_index_is(all, 0, has_key, key + 1);
    if key < body.len() {
        let n = all.len() as int;
        block_laws::lemma_block_end_shift(all, 1, n, key + 1);
        assert(all.subrange(1, n) =~= body);
        assert(all.take(n) =~= all);
        let stop = cmd_block::block_end(body, key);
        block_laws::lemma_block_end(body, key);
        assert(all.subrange(key + 1, stop + 1) =~= body.subrange(key, stop));
    }
}

/// Switching an entry off changes one thing that is read of the file: the first entry
/// with that id is switched off. Its model path, and every other entry, stay as they
/// were.
pub proof fn disabling_changes_one_entry(lines: Seq<Seq<char>>, id: Seq<char>)
    requires
        swap_yaml::span_of_entry(lines, id) is Some,
    ensures
        match (
            swap_yaml::span_of_entry(lines, id),
            swap_yaml::entry_index(swap_yaml::entries_of_lines(lines), id, 0),
        ) {
            (Some((s, e)), Some(n)) => {
                let entries = swap_yaml::entries_of_lines(lines);
                let after = swap_yaml::with_disabled_line(lines, (s, e));
                &&& 0 <= n < entries.len()
                &&& swap_yaml::span_of_entry(after, id) == Some((s, e + 1))
                &&& swap_yaml::entries_of_lines(after) == entries.update(
                    n,
                    (EntrySpec { disabled: true, ..entries[n] }),
                )
            },
            _ => false,
        },
{
    let line = "    disabled: true"@;
    let (s, e) = swap_yaml::span_of_entry(lines, id)->0;
    let after = swap_yaml::with_disabled_line(lines, (s, e));
    lemma_disabled_line();
    lemma_body_is_inner(lines, id);
    let part = seq![line];
    assert(edit_laws::are_inner(part));
    assert(after =~= edit_laws::spliced(lines, s + 1, part, s + 1));
    edit_laws::edited_entry_stays(lines, id, s + 1, part, s + 1);
    edit_laws::other_entries_stay(lines, id, s + 1, part, s + 1);
    let body = lines.subrange(s + 1, e);
    let edited = after.subrange(s + 1, e + 1);
    assert(edited =~= part + body);
    assert(swap_yaml::disables(edited[0]));
    lemma_command_front(line, body);
    assert(swap_yaml::entry_of(id, edited) == EntrySpec {
        disabled: true,
        ..swap_yaml::entry_of(id, body)
    });
}

/// Switching an entry on leaves it switched on, without its active `disabled:` lines.
/// Every other entry stays as it was.
pub proof fn enabling_changes_one_entry(lines: Seq<Seq<char>>, id: Seq<char>)
    requires
        swap_yaml::span_of_entry(lines, id) is Some,
    ensures
        match (
            swap_yaml::span_of_entry(lines, id),
            swap_yaml::entry_index(swap_yaml::entries_of_lines(lines), id, 0),
        ) {
            (Some((s, e)), Some(n)) => {
                let entries = swap_yaml::entries_of_lines(lines);
                let after = swap_yaml::without_disabled_lines(lines, (s, e));
                let kept = swap_yaml::enabled_lines(lines.subrange(s + 1, e));
                &&& 0 <= n < entries.len()
                &&& swap_yaml::span_of_entry(after, id) == Some((s, s + 1 + kept.len()))
                &&& after.subrange(s + 1, s + 1 + kept.len()) == kept
                &&& swap_yaml::entries_of_lines(after) == entries.update(
                    n,
                    swap_yaml::entry_of(id, kept),
                )
                &&& !swap_yaml::entry_of(id, kept).disabled
            },
            _ => false,
        },
{
    let (s, e) = swap_yaml::span_of_entry(lines, id)->0;
    let body = lines.subrange(s + 1, e);
    let kept = swap_yaml::enabled_lines(body);
    let after = swap_yaml::without_disabled_lines(lines, (s, e));
    lemma_body_is_inner(lines, id);
    lemma_enabled_lines(body);
    assert(after =~= edit_laws::spliced(lines, s + 1, kept, e));
    edit_laws::edited_entry_stays(lines, id, s + 1, kept, e);
    edit_laws::other_entries_stay(lines, id, s + 1, kept, e);
    assert(after.subrange(s + 1, s + 1 + kept.len()) =~= kept);
}

/// The lines of an entry say the same with and without their carriage returns.
proof fn lemma_raw_entry(file: Seq<char>, id: Seq<char>)
    ensures
        match swap_yaml::span_of_entry(text::lines(file), id) {
            Some((s, e)) => {
                let lines = text::lines(file);
                let raw = text::raw_lines(file);
                let ended = swap_yaml::is_ended(file);
                &&& 0 < s < e <= lines.len()
                &&& raw.len() == lines.len()
                &&& lines == line_laws::bare_lines(raw, ended)
                &&& line_laws::splits_back(raw, ended)
                &&& swap_yaml::text_of_lines(raw, ended) == file
                &&& reading_laws::reads_alike(raw[s], lines[s])
                &&& reading_laws::reads_alike(text::drop_carriage_return(raw[s]), lines[s])
                &&& reading_laws::read_alike(raw.subrange(s + 1, e), lines.subrange(s + 1, e))
                &&& edit_laws::are_inner(lines.subrange(s + 1, e))
                &&& edit_laws::are_inner(raw.subrange(s + 1, e))
            },
            None => true,
        },
{
    let lines = text::lines(file);
    let raw = text::raw_lines(file);
    line_laws::text_reads_back(file);
    edit_laws::lemma_entry_bounds(lines, id);
    lemma_body_is_inner(lines, id);
    match swap_yaml::span_of_entry(lines, id) {
        Some((s, e)) => {
            let (start, end) = swap_yaml::section_span(lines)->0;
            assert forall|i: int| s <= i < e implies reading_laws::reads_alike(
                #[trigger] raw[i],
                lines[i],
            ) && reading_laws::reads_alike(text::drop_carriage_return(raw[i]), lines[i]) by {
                assert(!swap_yaml::is_top_level(lines[i]));
                reading_laws::lemma_bare_reads_alike(raw[i]);
            }
            let x = raw.subrange(s + 1, e);
            let y = lines.subrange(s + 1, e);
            assert forall|i: int| 0 <= i < x.len() implies reading_laws::reads_alike(
                x[i],
                #[trigger] y[i],
            ) by {
                assert(reading_laws::reads_alike(raw[s + 1 + i], lines[s + 1 + i]));
            }
            assert forall|i: int| 0 <= i < x.len() implies edit_laws::is_inner(#[trigger] x[i]) by {
                assert(reading_laws::reads_alike(x[i], y[i]));
                assert(edit_laws::is_inner(y[i]));
            }
        },
        None => {},
    }
}

/// The lines of a file whose entry was switched off.
proof fn lemma_disabled_text(file: Seq<char>, id: Seq<char>)
    ensures
        match swap_yaml::span_of_entry(text::lines(file), id) {
            Some(span) => {
                let ended = swap_yaml::is_ended(file);
                let after = swap_yaml::with_disabled_line(text::raw_lines(file), span);
                let off = swap_yaml::text_of_lines(after, ended);
                &&& text::raw_lines(off) == after
                &&& swap_yaml::is_ended(off) == ended
                &&& reading_laws::read_alike(
                    text::lines(off),
                    swap_yaml::with_disabled_line(text::lines(file), span),
                )
            },
            None => true,
        },
{
    let line = "    disabled: true"@;
    let lines = text::lines(file);
    let raw = text::raw_lines(file);
    let ended = swap_yaml::is_ended(file);
    lemma_raw_entry(file, id);
    lemma_disabled_line();
    match swap_yaml::span_of_entry(lines, id) {
        Some((s, e)) => {
            let after = swap_yaml::with_disabled_line(raw, (s, e));
            let wanted = swap_yaml::with_disabled_line(lines, (s, e));
            assert forall|i: int| 0 <= i < after.len() implies !(#[trigger] after[i]).contains(
                '\n',
            ) by {
                if i <= s {
                    assert(after[i] == raw[i]);
                } else if i > s + 1 {
                    assert(after[i] == raw[i - 1]);
                }
            }
            line_laws::lines_read_back(after, ended);
            let read = line_laws::bare_lines(after, ended);
            assert forall|i: int| 0 <= i < read.len() implies reading_laws::reads_alike(
                read[i],
                #[trigger] wanted[i],
            ) by {
                if i < s {
                    assert(read[i] == lines[i]);
                } else if i > s + 1 {
                    assert(read[i] == lines[i - 1]);
                }
            }
        },
        None => {},
    }
}

/// Switching an entry off and on again gives back the same text, where the entry had no
/// active `disabled:` line.
pub proof fn disable_then_enable_restores(file: Seq<char>, id: Seq<char>)
    requires
        match swap_yaml::span_of_entry(text::lines(file), id) {
            Some((s, e)) => !any_disabled_key(text::lines(file).subrange(s + 1, e)),
            None => false,
        },
    ensures
        match swap_yaml::span_of_entry(text::lines(file), id) {
            Some(span) => {
                let off = swap_yaml::with_disabled(file, span, true);
                match swap_yaml::span_of_entry(text::lines(off), id) {
                    Some(later) => swap_yaml::with_disabled(off, later, false) == file,
                    None => false,
                }
            },
            None => false,
        },
{
    let line = "    disabled: true"@;
    let lines = text::lines(file);
    let raw = text::raw_lines(file);
    let ended = swap_yaml::is_ended(file);
    let (s, e) = swap_yaml::span_of_entry(lines, id)->0;
    let after = swap_yaml::with_disabled_line(raw, (s, e));
    let off = swap_yaml::text_of_lines(after, ended);
    let body = raw.subrange(s + 1, e);
    lemma_disabled_line();
    lemma_raw_entry(file, id);
    lemma_disabled_text(file, id);
    lemma_no_key_in_raw(body, lines.subrange(s + 1, e));
    assert(!swap_yaml::any_disables(lines.subrange(s + 1, e)));
    disabling_changes_one_entry(lines, id);
    reading_laws::alike_files_have_the_same_entries(
        text::lines(off),
        swap_yaml::with_disabled_line(lines, (s, e)),
        id,
    );
    let edited = after.subrange(s + 1, e + 1);
    assert(edited =~= seq![line] + body);
    lemma_enabled_lines_front(line, body);
    lemma_enabled_lines(body);
    assert(swap_yaml::without_disabled_lines(after, (s, e + 1)) =~= raw);
}

/// Lines that say the same have the active key `disabled:` alike; without it, none of them
/// switches its entry off.
proof fn lemma_no_key_in_raw(a: Seq<Seq<char>>, b: Seq<Seq<char>>)
    requires
        reading_laws::read_alike(a, b),
        !any_disabled_key(b),
    ensures
        !any_disabled_key(a),
        !swap_yaml::any_disables(b),
{
    assert forall|i: int| 0 <= i < a.len() implies !swap_yaml::is_disabled_key(
        #[trigger] a[i],
    ) by {
        assert(reading_laws::reads_alike(a[i], b[i]));
        assert(!swap_yaml::is_disabled_key(b[i]));
    }
    assert forall|i: int| 0 <= i < b.len() implies !swap_yaml::disables(#[trigger] b[i]) by {
        assert(!swap_yaml::is_disabled_key(b[i]));
    }
}

/// After an entry was switched off, the file reads as before but for that entry, which is
/// switched off.
pub proof fn disabled_file_reads_back(file: Seq<char>, id: Seq<char>)
    requires
        swap_yaml::span_of_entry(text::lines(file), id) is Some,
    ensures
        match (
            swap_yaml::span_of_entry(text::lines(file), id),
            swap_yaml::entry_index(swap_yaml::entries_of(file), id, 0),
        ) {
            (Some(span), Some(n)) => {
                let entries = swap_yaml::entries_of(file);
                &&& 0 <= n < entries.len()
                &&& swap_yaml::entries_of(swap_yaml::with_disabled(file, span, true))
                    == entries.update(n, (EntrySpec { disabled: true, ..entries[n] }))
            },
            _ => false,
        },
{
    let lines = text::lines(file);
    let (s, e) = swap_yaml::span_of_entry(lines, id)->0;
    disabling_changes_one_entry(lines, id);
    let body = lines.subrange(s + 1, e);
    if swap_yaml::any_disables(body) {
        let entries = swap_yaml::entries_of(file);
        let n = swap_yaml::entry_index(entries, id, 0)->0;
        lemma_disabled_line();
        let part = seq!["    disabled: true"@];
        lemma_body_is_inner(lines, id);
        assert(edit_laws::are_inner(part));
        edit_laws::other_entries_stay(lines, id, s + 1, part, s + 1);
        assert(entries[n].disabled);
        assert(entries.update(n, (EntrySpec { disabled: true, ..entries[n] })) =~= entries);
    } else {
        lemma_disabled_text(file, id);
        reading_laws::alike_files_have_the_same_entries(
            text::lines(swap_yaml::with_disabled(file, (s, e), true)),
            swap_yaml::with_disabled_line(lines, (s, e)),
            id,
        );
    }
}

/// The lines of a file whose entry was switched on. An empty line that comes to stand last
/// without an ending is read as the ending of the line before it.
#[verifier::rlimit(30)]
proof fn lemma_enabled_text(file: Seq<char>, id: Seq<char>)
    ensures
        match swap_yaml::span_of_entry(text::lines(file), id) {
            Some((s, e)) => {
                let lines = text::lines(file);
                let raw = text::raw_lines(file);
                let kept = swap_yaml::enabled_lines(lines.subrange(s + 1, e));
                let kept_raw = swap_yaml::enabled_lines(raw.subrange(s + 1, e));
                let after = swap_yaml::without_disabled_lines(raw, (s, e));
                let on = swap_yaml::with_disabled(file, (s, e), false);
                let is_cut = !swap_yaml::is_ended(file) && after.last().len() == 0;
                &&& kept.len() == kept_raw.len()
                &&& is_cut ==> e == lines.len() && kept.len() > 0 && reading_laws::reads_alike(
                    Seq::empty(),
                    kept.last(),
                )
                &&& text::raw_lines(on) == if is_cut {
                    after.drop_last()
                } else {
                    after
                }
                &&& reading_laws::read_alike(
                    text::lines(on),
                    edit_laws::spliced(
                        lines,
                        s + 1,
                        if is_cut {
                            kept.drop_last()
                        } else {
                            kept
                        },
                        e,
                    ),
                )
            },
            None => true,
        },
{
    let lines = text::lines(file);
    let raw = text::raw_lines(file);
    let ended = swap_yaml::is_ended(file);
    lemma_raw_entry(file, id);
    match swap_yaml::span_of_entry(lines, id) {
        Some((s, e)) => {
            let body = raw.subrange(s + 1, e);
            let kept = swap_yaml::enabled_lines(lines.subrange(s + 1, e));
            let kept_raw = swap_yaml::enabled_lines(body);
            let after = swap_yaml::without_disabled_lines(raw, (s, e));
            let is_cut = !ended && after.last().len() == 0;
            lemma_enabled_lines_alike(body, lines.subrange(s + 1, e));
            lemma_enabled_lines(body);
            lemma_kept_are_lines(body);
            assert forall|i: int| 0 <= i < after.len() implies !(#[trigger] after[i]).contains(
                '\n',
            ) by {
                if i <= s {
                    assert(after[i] == raw[i]);
                } else if i <= s + kept_raw.len() {
                    assert(body.contains(kept_raw[i - s - 1]));
                    let k = choose|k: int| 0 <= k < body.len() && body[k] == kept_raw[i - s - 1];
                    assert(after[i] == raw[s + 1 + k]);
                } else {
                    assert(after[i] == raw[i - s - 1 - kept_raw.len() + e]);
                }
            }
            if is_cut {
                assert(e == raw.len()) by {
                    if e < raw.len() {
                        assert(after.last() == raw.last());
                    }
                }
                assert(kept_raw.len() > 0) by {
                    if kept_raw.len() == 0 {
                        assert(after.last() == raw[s]);
                        reveal_strlit("  ");
                        edit_laws::lemma_entry_bounds(lines, id);
                        assert(swap_yaml::key_of_line(raw[s]) is Some);
                    }
                }
                assert(after.last() == kept_raw.last());
                assert(kept_raw.last() =~= Seq::<char>::empty());
                assert(reading_laws::reads_alike(
                    kept_raw[kept_raw.len() - 1],
                    kept[kept.len() - 1],
                ));
                line_laws::empty_last_line_ends_the_text(after);
            }
            let cut = if is_cut {
                after.drop_last()
            } else {
                after
            };
            let part = if is_cut {
                kept.drop_last()
            } else {
                kept
            };
            let cut_ended = ended || is_cut;
            line_laws::lines_read_back(cut, cut_ended);
            let read = line_laws::bare_lines(cut, cut_ended);
            let wanted = edit_laws::spliced(lines, s + 1, part, e);
            assert forall|i: int| 0 <= i < read.len() implies reading_laws::reads_alike(
                read[i],
                #[trigger] wanted[i],
            ) by {
                if i < s {
                    assert(read[i] == lines[i]);
                } else if i > s && i <= s + part.len() {
                    let k = i - s - 1;
                    assert(cut[i] == kept_raw[k]);
                    assert(wanted[i] == kept[k]);
                    assert(reading_laws::reads_alike(kept_raw[k], kept[k]));
                    assert(edit_laws::is_inner(kept_raw[k]));
                    reading_laws::lemma_bare_reads_alike(kept_raw[k]);
                } else if i > s {
                    assert(read[i] == lines[i - s - 1 - part.len() + e]);
                }
            }
        },
        None => {},
    }
}

/// The lines that are kept are lines of the entry.
proof fn lemma_kept_are_lines(body: Seq<Seq<char>>)
    ensures
        forall|k: int|
            0 <= k < swap_yaml::enabled_lines(body).len() ==> body.contains(
                #[trigger] swap_yaml::enabled_lines(body)[k],
            ),
    decreases body.len(),
{
    if body.len() > 0 {
        let shorter = body.drop_last();
        let kept = swap_yaml::enabled_lines(body);
        let earlier = swap_yaml::enabled_lines(shorter);
        lemma_kept_are_lines(shorter);
        assert forall|k: int| 0 <= k < kept.len() implies body.contains(#[trigger] kept[k]) by {
            if k < earlier.len() {
                assert(shorter.contains(earlier[k]));
                let i = choose|i: int| 0 <= i < shorter.len() && shorter[i] == earlier[k];
                assert(body[i] == kept[k]);
            } else {
                assert(body[body.len() - 1] == kept[k]);
            }
        }
    }
}

/// After an entry was switched on, the file reads as before but for that entry, which is
/// switched on and has lost its active `disabled:` lines.
pub proof fn enabled_file_reads_back(file: Seq<char>, id: Seq<char>)
    requires
        swap_yaml::span_of_entry(text::lines(file), id) is Some,
    ensures
        match (
            swap_yaml::span_of_entry(text::lines(file), id),
            swap_yaml::entry_index(swap_yaml::entries_of(file), id, 0),
        ) {
            (Some((s, e)), Some(n)) => {
                let entries = swap_yaml::entries_of(file);
                let kept = swap_yaml::enabled_lines(text::lines(file).subrange(s + 1, e));
                let entry = swap_yaml::entry_of(id, kept);
                &&& 0 <= n < entries.len()
                &&& !entry.disabled
                &&& swap_yaml::entries_of(swap_yaml::with_disabled(file, (s, e), false))
                    == entries.update(n, entry)
            },
            _ => false,
        },
{
    let lines = text::lines(file);
    let (s, e) = swap_yaml::span_of_entry(lines, id)->0;
    enabling_changes_one_entry(lines, id);
    lemma_enabled_span(file, id);
}

/// Where the entry stands in a file in which it was switched on, and what is read of that
/// file.
proof fn lemma_enabled_span(file: Seq<char>, id: Seq<char>)
    requires
        swap_yaml::span_of_entry(text::lines(file), id) is Some,
    ensures
        match (
            swap_yaml::span_of_entry(text::lines(file), id),
            swap_yaml::entry_index(swap_yaml::entries_of(file), id, 0),
        ) {
            (Some((s, e)), Some(n)) => {
                let kept = swap_yaml::enabled_lines(text::lines(file).subrange(s + 1, e));
                let after = swap_yaml::without_disabled_lines(text::raw_lines(file), (s, e));
                let on = swap_yaml::with_disabled(file, (s, e), false);
                let is_cut = !swap_yaml::is_ended(file) && after.last().len() == 0;
                &&& swap_yaml::span_of_entry(text::lines(on), id) == Some(
                    (
                        s,
                        s + 1 + kept.len() - if is_cut {
                            1int
                        } else {
                            0
                        },
                    ),
                )
                &&& swap_yaml::entries_of(on) == swap_yaml::entries_of(file).update(
                    n,
                    swap_yaml::entry_of(id, kept),
                )
            },
            _ => false,
        },
{
    let lines = text::lines(file);
    let (s, e) = swap_yaml::span_of_entry(lines, id)->0;
    let body = lines.subrange(s + 1, e);
    let kept = swap_yaml::enabled_lines(body);
    let raw_after = swap_yaml::without_disabled_lines(text::raw_lines(file), (s, e));
    let on = swap_yaml::with_disabled(file, (s, e), false);
    let is_cut = !swap_yaml::is_ended(file) && raw_after.last().len() == 0;
    lemma_enabled_text(file, id);
    lemma_body_is_inner(lines, id);
    lemma_enabled_lines(body);
    let part = if is_cut {
        kept.drop_last()
    } else {
        kept
    };
    assert forall|i: int| 0 <= i < part.len() implies edit_laws::is_inner(#[trigger] part[i]) by {
        assert(edit_laws::is_inner(kept[i]));
    }
    let after = edit_laws::spliced(lines, s + 1, part, e);
    edit_laws::edited_entry_stays(lines, id, s + 1, part, e);
    edit_laws::other_entries_stay(lines, id, s + 1, part, e);
    assert(after.subrange(s + 1, s + 1 + part.len()) =~= part);
    if is_cut {
        reading_laws::empty_last_line_says_nothing(id, kept);
    }
    reading_laws::alike_files_have_the_same_entries(text::lines(on), after, id);
}

/// Switching an entry off a second time changes nothing.
pub proof fn disabling_is_idempotent(file: Seq<char>, id: Seq<char>)
    requires
        swap_yaml::span_of_entry(text::lines(file), id) is Some,
    ensures
        match swap_yaml::span_of_entry(text::lines(file), id) {
            Some(span) => {
                let off = swap_yaml::with_disabled(file, span, true);
                match swap_yaml::span_of_entry(text::lines(off), id) {
                    Some(later) => swap_yaml::with_disabled(off, later, true) == off,
                    None => false,
                }
            },
            None => false,
        },
{
    let lines = text::lines(file);
    let (s, e) = swap_yaml::span_of_entry(lines, id)->0;
    if !swap_yaml::any_disables(lines.subrange(s + 1, e)) {
        let off = swap_yaml::with_disabled(file, (s, e), true);
        let wanted = swap_yaml::with_disabled_line(lines, (s, e));
        lemma_disabled_line();
        lemma_body_is_inner(lines, id);
        lemma_disabled_text(file, id);
        disabling_changes_one_entry(lines, id);
        reading_laws::alike_files_have_the_same_entries(text::lines(off), wanted, id);
        assert(reading_laws::reads_alike(text::lines(off)[s + 1], wanted[s + 1]));
        assert(swap_yaml::disables(text::lines(off).subrange(s + 1, e + 1)[0]));
    }
}

/// Switching an entry on a second time changes nothing.
pub proof fn enabling_is_idempotent(file: Seq<char>, id: Seq<char>)
    requires
        swap_yaml::span_of_entry(text::lines(file), id) is Some,
    ensures
        match swap_yaml::span_of_entry(text::lines(file), id) {
            Some(span) => {
                let on = swap_yaml::with_disabled(file, span, false);
                match swap_yaml::span_of_entry(text::lines(on), id) {
                    Some(later) => swap_yaml::with_disabled(on, later, false) == on,
                    None => false,
                }
            },
            None => false,
        },
{
    let lines = text::lines(file);
    let raw = text::raw_lines(file);
    let (s, e) = swap_yaml::span_of_entry(lines, id)->0;
    let on = swap_yaml::with_disabled(file, (s, e), false);
    let body = raw.subrange(s + 1, e);
    let kept = swap_yaml::enabled_lines(body);
    lemma_raw_entry(file, id);
    lemma_enabled_text(file, id);
    lemma_enabled_span(file, id);
    lemma_enabled_lines(body);
    let again = text::raw_lines(on);
    let later = swap_yaml::span_of_entry(text::lines(on), id)->0;
    let rest = again.subrange(s + 1, later.1);
    assert forall|i: int| 0 <= i < rest.len() implies !swap_yaml::is_disabled_key(
        #[trigger] rest[i],
    ) by {
        assert(rest[i] == kept[i]);
    }
    lemma_enabled_lines(rest);
    assert(swap_yaml::without_disabled_lines(again, later) =~= again);
    line_laws::text_reads_back(on);
}

/// Switching on an entry without an active `disabled:` line changes nothing.
pub proof fn enabling_enabled_changes_nothing(file: Seq<char>, id: Seq<char>)
    requires
        match swap_yaml::span_of_entry(text::lines(file), id) {
            Some((s, e)) => !any_disabled_key(text::lines(file).subrange(s + 1, e)),
            None => false,
        },
    ensures
        match swap_yaml::span_of_entry(text::lines(file), id) {
            Some(span) => swap_yaml::with_disabled(file, span, false) == file,
            None => false,
        },
{
    let lines = text::lines(file);
    let raw = text::raw_lines(file);
    let (s, e) = swap_yaml::span_of_entry(lines, id)->0;
    let body = raw.subrange(s + 1, e);
    lemma_raw_entry(file, id);
    lemma_no_key_in_raw(body, lines.subrange(s + 1, e));
    lemma_enabled_lines(body);
    assert(swap_yaml::without_disabled_lines(raw, (s, e)) =~= raw);
}

/// A comment never has the active key `disabled:`, so that it neither switches its entry
/// off nor is removed.
pub proof fn comments_are_kept(body: Seq<Seq<char>>, i: int)
    requires
        0 <= i < body.len(),
        text::starts_with_char(text::trim_start(body[i]), '#'),
    ensures
        !swap_yaml::disables(body[i]),
        swap_yaml::enabled_lines(body).contains(body[i]),
    decreases body.len(),
{
    reveal_strlit("disabled:");
    let kept = text::trim_start(body[i]);
    assert(!swap_yaml::is_disabled_key(body[i])) by {
        if text::starts_with(kept, "disabled:"@) {
            assert(kept[0] == kept.take(9)[0]);
        }
    }
    let shorter = body.drop_last();
    let all = swap_yaml::enabled_lines(body);
    if i == body.len() - 1 {
        assert(all.last() == body[i]);
    } else {
        assert(shorter[i] == body[i]);
        comments_are_kept(shorter, i);
        let earlier = swap_yaml::enabled_lines(shorter);
        let k = choose|k: int| 0 <= k < earlier.len() && earlier[k] == body[i];
        assert(all[k] == body[i]);
    }
}

} // verus!
