//! What replacing the command block of an entry does to the file.

use crate::cmd_block;
use crate::disable_laws;
use crate::edit_laws;
use crate::line_laws;
use crate::swap_yaml;
use crate::text;
use vstd::prelude::*;

verus! {

/// The token lines of the lines of a command.
pub open spec fn body_tokens(body: Seq<Seq<char>>) -> Seq<Seq<Seq<char>>> {
    body.map_values(|line: Seq<char>| cmd_block::tokens(text::trim(line)))
}

/// Behind the position that `without_blank_tail` gives there are blank lines only.
pub proof fn lemma_blank_tail_bounds(lines: Seq<Seq<char>>, from: int, to: int)
    requires
        0 <= from <= to <= lines.len(),
    ensures
        ({
            let n = cmd_block::without_blank_tail(lines, from, to);
            &&& from <= n <= to
            &&& n > from ==> !cmd_block::is_blank(lines[n - 1])
            &&& forall|i: int| n <= i < to ==> cmd_block::is_blank(#[trigger] lines[i])
        }),
    decreases to - from,
{
    if to > from && cmd_block::is_blank(lines[to - 1]) {
        lemma_blank_tail_bounds(lines, from, to - 1);
    }
}

/// The position of the line that ends a block, or of the end.
pub open spec fn block_stop(lines: Seq<Seq<char>>, key: int) -> int {
    let indent = cmd_block::indent_of(lines[key]);
    text::first_index(
        lines,
        key + 1,
        |line: Seq<char>| cmd_block::ends_block(line, indent),
    )
}

/// A block ends at the line that ends it, or before blank lines in front of that.
pub proof fn lemma_block_end(lines: Seq<Seq<char>>, key: int)
    requires
        0 <= key < lines.len(),
    ensures
        ({
            let indent = cmd_block::indent_of(lines[key]);
            let stop = cmd_block::block_end(lines, key);
            let to = block_stop(lines, key);
            &&& key + 1 <= stop <= to <= lines.len()
            &&& forall|i: int| stop <= i < to ==> cmd_block::is_blank(#[trigger] lines[i])
            &&& to < lines.len() ==> cmd_block::ends_block(lines[to], indent)
        }),
{
    let indent = cmd_block::indent_of(lines[key]);
    let ends = |line: Seq<char>| cmd_block::ends_block(line, indent);
    text::lemma_first_index(lines, key + 1, ends);
    lemma_blank_tail_bounds(lines, key + 1, block_stop(lines, key));
}

/// A line with the key `cmd:` inside an entry is indented.
proof fn lemma_cmd_line_is_indented(line: Seq<char>)
    requires
        cmd_block::has_cmd_key(line),
        !swap_yaml::is_top_level(line) || swap_yaml::key_of_line(line) is Some,
    ensures
        line.len() > 0,
        text::is_white(line[0]),
        cmd_block::indent_of(line) >= 1,
{
    let kept = text::trim_start(line);
    text::lemma_trim_start(line);
    text::lemma_trim_end(line);
    reveal_strlit("cmd:");
    reveal_strlit("  ");
    assert(kept.len() >= 4);
    assert(kept[0] == kept.take(4)[0]);
    if swap_yaml::key_of_line(line) is Some {
        assert(line[0] == line.take(2)[0]);
    } else {
        assert(text::trim_end(line).len() > 0) by {
            if text::trim_end(line).len() == 0 {
                assert(text::is_white(line[line.len() - kept.len()]));
            }
        }
        assert(text::trim_end(line)[0] == line[0]);
        if line[0] == '#' {
            assert(kept == line);
        }
    }
    let head = line.take(line.len() - kept.len());
    assert(head.len() >= 1);
    text::lemma_byte_len_at_least_len(head);
}

/// White space before a line does not change its tokens, nor whether it is blank.
pub proof fn lemma_indented_line(n: nat, line: Seq<char>)
    ensures
        text::trim(cmd_block::spaces(n) + line) == text::trim(line),
        cmd_block::is_blank(cmd_block::spaces(n) + line) == cmd_block::is_blank(line),
        !cmd_block::is_blank(line) ==> cmd_block::indent_of(cmd_block::spaces(n) + line) >= n,
    decreases n,
{
    let s = cmd_block::spaces(n) + line;
    if n == 0 {
        assert(s =~= line);
    } else {
        let shorter = cmd_block::spaces((n - 1) as nat) + line;
        lemma_indented_line((n - 1) as nat, line);
        assert(s.drop_first() =~= shorter);
        assert(s[0] == ' ');
        assert(text::trim_start(s) == text::trim_start(shorter));
        text::lemma_trim_end(s);
        text::lemma_trim_end(shorter);
        if cmd_block::is_blank(shorter) {
            if !cmd_block::is_blank(s) {
                let i = text::trim_end(s).len() - 1;
                assert(s[i] == text::trim_end(s).last());
                if i > 0 {
                    assert(text::is_white(shorter[i - 1]));
                }
            }
        } else if cmd_block::is_blank(s) {
            let i = text::trim_end(shorter).len() - 1;
            assert(shorter[i] == text::trim_end(shorter).last());
            assert(text::is_white(s[i + 1]));
        }
        if !cmd_block::is_blank(line) {
            text::lemma_trim_start(shorter);
            text::lemma_trim_start(s);
            let head = s.take(s.len() - text::trim_start(s).len());
            let less = shorter.take(shorter.len() - text::trim_start(shorter).len());
            assert(head =~= seq![' '] + less);
            text::lemma_byte_len_concat(seq![' '], less);
            text::lemma_byte_len_at_least_len(seq![' ']);
        }
    }
}

/// Replacing the block of the entry with key `id` keeps the entry where it is, and what
/// is then read of the entry is the command with the new lines. The new block must not
/// end with a blank line, and the first `cmd:` line of the entry must open a block.
#[verifier::rlimit(30)]
pub proof fn replaced_block_is_read(lines: Seq<Seq<char>>, id: Seq<char>, body: Seq<Seq<char>>)
    requires
        match swap_yaml::span_of_entry(lines, id) {
            Some(span) => cmd_block::cmd_line(lines, span) < span.1 && cmd_block::opens_block(
                lines[cmd_block::cmd_line(lines, span)],
            ),
            None => false,
        },
        body.len() > 0,
        !cmd_block::is_blank(body.last()),
    ensures
        match swap_yaml::span_of_entry(lines, id) {
            Some((s, e)) => {
                let key = cmd_block::cmd_line(lines, (s, e));
                let after = cmd_block::with_block(lines, key, e, body);
                match swap_yaml::span_of_entry(after, id) {
                    Some((later_s, later_e)) => later_s == s && cmd_block::cmd_parts(
                        after.subrange(later_s, later_e),
                    ) == Some(cmd_block::command_parts(body_tokens(body))),
                    None => false,
                }
            },
            None => false,
        },
{
    let (s, e) = swap_yaml::span_of_entry(lines, id)->0;
    let key = cmd_block::cmd_line(lines, (s, e));
    lemma_block_splice(lines, id, body);
    let stop = cmd_block::block_end(lines.take(e), key);
    let indent = cmd_block::indent_of(lines[key]);
    let part = cmd_block::indented(body, indent + 2);
    let after = cmd_block::with_block(lines, key, e, body);
    let d = part.len() - (stop - (key + 1));
    edit_laws::edited_entry_stays(lines, id, key + 1, part, stop);
    edit_laws::lemma_entry_bounds(lines, id);
    let whole = lines.take(e);
    lemma_block_end(whole, key);
    let to = block_stop(whole, key);
    let entry = after.subrange(s, e + d);
    let k = key - s;
    let block = k + 1 + part.len();
    assert forall|i: int| 0 <= i < entry.len() implies #[trigger] entry[i] == if i <= k {
        lines[s + i]
    } else if i < block {
        part[i - k - 1]
    } else {
        whole[s + i - d]
    } by {}
    let opens = |line: Seq<char>| cmd_block::opens_block(line);
    let has_key = |line: Seq<char>| cmd_block::has_cmd_key(line);
    text::lemma_first_index(whole, s, has_key);
    assert forall|i: int| 0 <= i < k implies !opens(#[trigger] entry[i]) by {
        assert(!has_key(whole[s + i]));
    }
    text::lemma_first_index_is(entry, 0, opens, k);
    let ends = |line: Seq<char>| cmd_block::ends_block(line, indent);
    assert forall|i: int| k + 1 <= i < to - s + d implies !ends(#[trigger] entry[i]) by {
        if i < block {
            lemma_indented_line(indent + 2, body[i - k - 1]);
            assert(part[i - k - 1] == cmd_block::spaces(indent + 2) + body[i - k - 1]);
        } else {
            assert(cmd_block::is_blank(whole[s + i - d]));
        }
    }
    assert(entry[k] == lines[key]);
    text::lemma_first_index_is(entry, k + 1, ends, to - s + d);
    assert forall|i: int| block <= i < to - s + d implies cmd_block::is_blank(
        #[trigger] entry[i],
    ) by {
        assert(cmd_block::is_blank(whole[s + i - d]));
    }
    assert(!cmd_block::is_blank(entry[block - 1])) by {
        lemma_indented_line(indent + 2, body.last());
        assert(part[part.len() - 1] == cmd_block::spaces(indent + 2) + body.last());
    }
    cmd_block::lemma_blank_tail(entry, k + 1, to - s + d, block);
    assert(cmd_block::block_end(entry, k) == block);
    let list = cmd_block::block_tokens(entry, k);
    assert forall|i: int| 0 <= i < body.len() implies #[trigger] list[i] == body_tokens(body)[i] by {
        lemma_indented_line(indent + 2, body[i]);
        assert(part[i] == cmd_block::spaces(indent + 2) + body[i]);
        assert(entry.subrange(k + 1, block)[i] == part[i]);
    }
    assert(list =~= body_tokens(body));
}

/// Replacing a block is replacing lines inside the entry.
pub proof fn lemma_block_splice(lines: Seq<Seq<char>>, id: Seq<char>, body: Seq<Seq<char>>)
    requires
        match swap_yaml::span_of_entry(lines, id) {
            Some(span) => cmd_block::cmd_line(lines, span) < span.1,
            None => false,
        },
    ensures
        match swap_yaml::span_of_entry(lines, id) {
            Some((s, e)) => {
                let key = cmd_block::cmd_line(lines, (s, e));
                let stop = cmd_block::block_end(lines.take(e), key);
                let part = cmd_block::indented(body, cmd_block::indent_of(lines[key]) + 2);
                &&& 0 <= s <= key < stop <= e <= lines.len()
                &&& edit_laws::are_inner(part)
                &&& cmd_block::with_block(lines, key, e, body) == edit_laws::spliced(
                    lines,
                    key + 1,
                    part,
                    stop,
                )
            },
            None => false,
        },
{
    let (s, e) = swap_yaml::span_of_entry(lines, id)->0;
    edit_laws::lemma_entry_bounds(lines, id);
    let whole = lines.take(e);
    let has_key = |line: Seq<char>| cmd_block::has_cmd_key(line);
    text::lemma_first_index(whole, s, has_key);
    let key = cmd_block::cmd_line(lines, (s, e));
    assert(has_key(whole[key]));
    lemma_block_end(whole, key);
    assert(whole[key] == lines[key]);
    lemma_cmd_line_is_indented(lines[key]);
    let n = cmd_block::indent_of(lines[key]) + 2;
    let part = cmd_block::indented(body, n);
    assert forall|i: int| 0 <= i < part.len() implies edit_laws::is_inner(#[trigger] part[i]) by {
        assert(part[i] == cmd_block::spaces(n) + body[i]);
        disable_laws::lemma_indented_is_inner(part[i]);
    }
}

/// Replacing the block of an entry changes what is read of the first entry with that id,
/// and of no other.
pub proof fn replacing_changes_one_entry(
    lines: Seq<Seq<char>>,
    id: Seq<char>,
    body: Seq<Seq<char>>,
)
    requires
        match swap_yaml::span_of_entry(lines, id) {
            Some(span) => cmd_block::cmd_line(lines, span) < span.1,
            None => false,
        },
    ensures
        match (
            swap_yaml::span_of_entry(lines, id),
            swap_yaml::entry_index(swap_yaml::entries_of_lines(lines), id, 0),
        ) {
            (Some((s, e)), Some(n)) => {
                let key = cmd_block::cmd_line(lines, (s, e));
                let after = cmd_block::with_block(lines, key, e, body);
                let entries = swap_yaml::entries_of_lines(lines);
                match swap_yaml::span_of_entry(after, id) {
                    Some((later_s, later_e)) => 0 <= n < entries.len() && later_s == s
                        && swap_yaml::entries_of_lines(after) == entries.update(
                        n,
                        swap_yaml::entry_of(id, after.subrange(later_s + 1, later_e)),
                    ),
                    None => false,
                }
            },
            _ => false,
        },
{
    let (s, e) = swap_yaml::span_of_entry(lines, id)->0;
    let key = cmd_block::cmd_line(lines, (s, e));
    lemma_block_splice(lines, id, body);
    let stop = cmd_block::block_end(lines.take(e), key);
    let part = cmd_block::indented(body, cmd_block::indent_of(lines[key]) + 2);
    edit_laws::edited_entry_stays(lines, id, key + 1, part, stop);
    edit_laws::other_entries_stay(lines, id, key + 1, part, stop);
}

/// The end of a block is the same in the entry and in the file.
pub proof fn lemma_block_end_shift(lines: Seq<Seq<char>>, s: int, e: int, key: int)
    requires
        0 <= s <= key < e <= lines.len(),
    ensures
        cmd_block::block_end(lines.subrange(s, e), key - s) + s == cmd_block::block_end(
            lines.take(e),
            key,
        ),
{
    let whole = lines.take(e);
    let entry = lines.subrange(s, e);
    let indent = cmd_block::indent_of(lines[key]);
    let ends = |line: Seq<char>| cmd_block::ends_block(line, indent);
    assert(whole[key] == lines[key] && entry[key - s] == lines[key]);
    text::lemma_first_index(whole, key + 1, ends);
    let to = block_stop(whole, key);
    assert forall|i: int| key - s + 1 <= i < to - s implies !ends(#[trigger] entry[i]) by {
        assert(!ends(whole[s + i]));
    }
    if to < e {
        assert(ends(whole[to]));
        assert(entry[to - s] == whole[to]);
    }
    text::lemma_first_index_is(entry, key - s + 1, ends, to - s);
    lemma_blank_tail_bounds(whole, key + 1, to);
    let stop = cmd_block::without_blank_tail(whole, key + 1, to);
    assert forall|i: int| stop - s <= i < to - s implies cmd_block::is_blank(
        #[trigger] entry[i],
    ) by {
        assert(cmd_block::is_blank(whole[s + i]));
    }
    if stop > key + 1 {
        assert(entry[stop - s - 1] == whole[stop - 1]);
    }
    cmd_block::lemma_blank_tail(entry, key - s + 1, to - s, stop - s);
}

proof fn lemma_join_concat(a: Seq<Seq<char>>, b: Seq<Seq<char>>, sep: Seq<char>)
    requires
        a.len() > 0,
        b.len() > 0,
    ensures
        text::join(a + b, sep) == text::join(a, sep) + sep + text::join(b, sep),
    decreases a.len(),
{
    let all = a + b;
    if a.len() == 1 {
        assert(all.drop_first() =~= b);
    } else {
        let rest = a.drop_first();
        lemma_join_concat(rest, b, sep);
        assert(all.drop_first() =~= rest + b);
        assert(a[0] + sep + (text::join(rest, sep) + sep + text::join(b, sep)) =~= a[0] + sep
            + text::join(rest, sep) + sep + text::join(b, sep));
    }
}

/// A text starts with its first lines and ends with its last lines.
proof fn lemma_text_ends(lines: Seq<Seq<char>>, a: int, b: int, ended: bool)
    requires
        0 < a <= b <= lines.len(),
    ensures
        text::starts_with(
            swap_yaml::text_of_lines(lines, ended),
            text::join(lines.take(a), seq!['\n']),
        ),
        b < lines.len() ==> text::ends_with(
            swap_yaml::text_of_lines(lines, ended),
            swap_yaml::text_of_lines(lines.skip(b), ended),
        ),
{
    let s = swap_yaml::text_of_lines(lines, ended);
    let head = text::join(lines.take(a), seq!['\n']);
    if a < lines.len() {
        assert(lines =~= lines.take(a) + lines.skip(a));
        lemma_join_concat(lines.take(a), lines.skip(a), seq!['\n']);
    } else {
        assert(lines.take(a) =~= lines);
    }
    assert(s.take(head.len() as int) =~= head);
    if b < lines.len() {
        let tail = swap_yaml::text_of_lines(lines.skip(b), ended);
        assert(lines =~= lines.take(b) + lines.skip(b));
        lemma_join_concat(lines.take(b), lines.skip(b), seq!['\n']);
        assert(s.skip(s.len() - tail.len()) =~= tail);
    }
}

/// Replacing the block of an entry keeps the text before the block and the text behind it
/// character by character, line endings and all.
pub proof fn replacing_keeps_the_rest(file: Seq<char>, id: Seq<char>, body: Seq<Seq<char>>)
    requires
        match swap_yaml::span_of_entry(text::lines(file), id) {
            Some(span) => cmd_block::cmd_line(text::lines(file), span) < span.1,
            None => false,
        },
    ensures
        match swap_yaml::span_of_entry(text::lines(file), id) {
            Some((s, e)) => {
                let lines = text::lines(file);
                let raw = text::raw_lines(file);
                let ended = swap_yaml::is_ended(file);
                let key = cmd_block::cmd_line(lines, (s, e));
                let stop = cmd_block::block_end(lines.take(e), key);
                let head = text::join(raw.take(key + 1), seq!['\n']);
                let tail = swap_yaml::text_of_lines(raw.skip(stop), ended);
                let after = cmd_block::with_block_text(file, key, e, body);
                &&& text::starts_with(file, head)
                &&& text::starts_with(after, head)
                &&& stop < lines.len() ==> text::ends_with(file, tail) && text::ends_with(
                    after,
                    tail,
                )
            },
            None => false,
        },
{
    let lines = text::lines(file);
    let raw = text::raw_lines(file);
    let ended = swap_yaml::is_ended(file);
    let (s, e) = swap_yaml::span_of_entry(lines, id)->0;
    let key = cmd_block::cmd_line(lines, (s, e));
    let stop = cmd_block::block_end(lines.take(e), key);
    line_laws::text_reads_back(file);
    lemma_block_splice(lines, id, body);
    lemma_text_ends(raw, key + 1, stop, ended);
    let part = cmd_block::indented(body, cmd_block::indent_of(lines[key]) + 2);
    let after = edit_laws::spliced(raw, key + 1, part, stop);
    lemma_text_ends(after, key + 1, key + 1 + part.len(), ended);
    assert(after.take(key + 1) =~= raw.take(key + 1));
    assert(after.skip(key + 1 + part.len()) =~= raw.skip(stop));
}

} // verus!
