//! What switching an entry and replacing its command writes, line by line.

use crate::entry_laws;
use crate::entry_laws::{are_entries, is_deep, is_plain_id, key_line, section_lines};
use crate::swap_yaml::{EntrySpec, SwapModel};
use crate::{block_laws, cmd_block, command_laws, edit_laws, line_laws, swap_yaml, text, text_laws};
use vstd::prelude::*;

verus! {

/// The lines of a file with these entries.
pub open spec fn file_lines(
    before: Seq<Seq<char>>,
    ids: Seq<Seq<char>>,
    inner: Seq<Seq<Seq<char>>>,
    after: Seq<Seq<char>>,
) -> Seq<Seq<char>> {
    before + seq!["models:"@] + section_lines(ids, inner) + after
}

/// The text of lines that each end in a line feed.
pub open spec fn text_of(lines: Seq<Seq<char>>) -> Seq<char> {
    text::join(lines, seq!['\n']) + seq!['\n']
}

/// Whether these make a file: the lines before open no section, the lines behind start with
/// one that ends it, and every line is one line.
pub open spec fn make_a_file(
    before: Seq<Seq<char>>,
    ids: Seq<Seq<char>>,
    inner: Seq<Seq<Seq<char>>>,
    after: Seq<Seq<char>>,
) -> bool {
    let all = file_lines(before, ids, inner, after);
    &&& forall|i: int| 0 <= i < before.len() ==> #[trigger] before[i] != "models:"@
    &&& are_entries(ids, inner)
    &&& after.len() > 0 ==> after[0].len() > 0 && !text::is_white(after[0][0]) && after[0][0] != '#'
    &&& forall|i: int|
        0 <= i < all.len() ==> !(#[trigger] all[i]).contains('\n') && !all[i].contains('\r')
}

/// The place of the key of an entry.
pub open spec fn key_place(
    before: Seq<Seq<char>>,
    ids: Seq<Seq<char>>,
    inner: Seq<Seq<Seq<char>>>,
    k: int,
) -> int {
    before.len() as int + 1 + section_lines(ids.take(k), inner.take(k)).len()
}

proof fn lemma_split(ids: Seq<Seq<char>>, inner: Seq<Seq<Seq<char>>>, k: int)
    requires
        inner.len() == ids.len(),
        0 <= k < ids.len(),
    ensures
        section_lines(ids, inner) == section_lines(ids.take(k), inner.take(k)) + seq![
            key_line(ids[k]),
        ] + inner[k] + section_lines(ids.skip(k + 1), inner.skip(k + 1)),
    decreases k,
{
    let all = section_lines(ids, inner);
    let rest = section_lines(ids.skip(k + 1), inner.skip(k + 1));
    if k == 0 {
        assert(ids.skip(1) =~= ids.drop_first());
        assert(inner.skip(1) =~= inner.drop_first());
        assert(section_lines(ids.take(0), inner.take(0)) + seq![key_line(ids[0])] + inner[0] + rest
            =~= all);
    } else {
        let later = ids.drop_first();
        let below = inner.drop_first();
        lemma_split(later, below, k - 1);
        assert(later.skip(k) =~= ids.skip(k + 1));
        assert(below.skip(k) =~= inner.skip(k + 1));
        assert(ids.take(k).drop_first() =~= later.take(k - 1));
        assert(inner.take(k).drop_first() =~= below.take(k - 1));
        let front = section_lines(later.take(k - 1), below.take(k - 1));
        assert(section_lines(ids.take(k), inner.take(k)) == seq![key_line(ids[0])] + inner[0]
            + front);
        assert(all =~= seq![key_line(ids[0])] + inner[0] + front + seq![key_line(ids[k])] + inner[k]
            + rest);
    }
}

proof fn lemma_keys(ids: Seq<Seq<char>>, inner: Seq<Seq<Seq<char>>>)
    requires
        are_entries(ids, inner),
    ensures
        forall|i: int|
            0 <= i < section_lines(ids, inner).len() ==> !swap_yaml::is_top_level(
                #[trigger] section_lines(ids, inner)[i],
            ) && match swap_yaml::key_of_line(section_lines(ids, inner)[i]) {
                Some(id) => ids.contains(id),
                None => true,
            },
        ids.len() > 0 ==> section_lines(ids, inner).len() > 0 && swap_yaml::key_of_line(
            section_lines(ids, inner)[0],
        ) is Some,
    decreases ids.len(),
{
    let lines = section_lines(ids, inner);
    if ids.len() > 0 {
        let later = ids.drop_first();
        let rest = section_lines(later, inner.drop_first());
        entry_laws::lemma_others(ids, inner);
        lemma_keys(later, inner.drop_first());
        assert(is_plain_id(ids[0]));
        entry_laws::lemma_key_line(ids[0]);
        assert(lines[0] == key_line(ids[0]));
        assert(ids.contains(ids[0]));
        assert forall|i: int| 0 <= i < lines.len() implies !swap_yaml::is_top_level(
            #[trigger] lines[i],
        ) && match swap_yaml::key_of_line(lines[i]) {
            Some(id) => ids.contains(id),
            None => true,
        } by {
            let n = inner[0].len() as int;
            if 0 < i <= n {
                assert(lines[i] == inner[0][i - 1]);
                entry_laws::lemma_deep(inner[0][i - 1]);
            } else if i > n {
                assert(lines[i] == rest[i - n - 1]);
                match swap_yaml::key_of_line(lines[i]) {
                    Some(id) => {
                        let m = choose|m: int| 0 <= m < later.len() && later[m] == id;
                        assert(ids[m + 1] == id);
                    },
                    None => {},
                }
            }
        }
    }
}

proof fn lemma_parts(ids: Seq<Seq<char>>, inner: Seq<Seq<Seq<char>>>, k: int)
    requires
        are_entries(ids, inner),
        0 <= k < ids.len(),
    ensures
        are_entries(ids.take(k), inner.take(k)),
        are_entries(ids.skip(k + 1), inner.skip(k + 1)),
{
    assert forall|i: int| 0 <= i < k implies is_plain_id(#[trigger] ids.take(k)[i]) by {
        assert(is_plain_id(ids[i]));
    }
    assert forall|i: int| 0 <= i < ids.len() - k - 1 implies is_plain_id(
        #[trigger] ids.skip(k + 1)[i],
    ) by {
        assert(is_plain_id(ids[i + k + 1]));
    }
    assert forall|i: int, j: int|
        0 <= i < k && 0 <= j < inner.take(k)[i].len() implies is_deep(
        #[trigger] inner.take(k)[i][j],
    ) by {
        assert(is_deep(inner[i][j]));
    }
    assert forall|i: int, j: int|
        0 <= i < ids.len() - k - 1 && 0 <= j < inner.skip(k + 1)[i].len() implies is_deep(
        #[trigger] inner.skip(k + 1)[i][j],
    ) by {
        assert(is_deep(inner[i + k + 1][j]));
    }
}

/// An entry is found where it was written: at its key, and up to the next key or the end of
/// the section. Of entries with the same id the first is found.
pub proof fn written_entry_is_found(
    before: Seq<Seq<char>>,
    ids: Seq<Seq<char>>,
    inner: Seq<Seq<Seq<char>>>,
    after: Seq<Seq<char>>,
    k: int,
)
    requires
        make_a_file(before, ids, inner, after),
        0 <= k < ids.len(),
        forall|j: int| 0 <= j < k ==> #[trigger] ids[j] != ids[k],
    ensures
        ({
            let s = key_place(before, ids, inner, k);
            let lines = file_lines(before, ids, inner, after);
            &&& swap_yaml::span_of_entry(lines, ids[k]) == Some((s, s + 1 + inner[k].len()))
            &&& lines[s] == key_line(ids[k])
            &&& lines.subrange(s + 1, s + 1 + inner[k].len()) == inner[k]
            &&& s + 1 + inner[k].len() <= lines.len()
        }),
{
    let all = file_lines(before, ids, inner, after);
    let front = section_lines(ids.take(k), inner.take(k));
    let back = section_lines(ids.skip(k + 1), inner.skip(k + 1));
    let start = before.len() as int;
    let s = key_place(before, ids, inner, k);
    let e = s + 1 + inner[k].len();
    let end = e + back.len();
    lemma_split(ids, inner, k);
    lemma_parts(ids, inner, k);
    lemma_keys(ids.take(k), inner.take(k));
    lemma_keys(ids.skip(k + 1), inner.skip(k + 1));
    lemma_keys(ids, inner);
    assert(is_plain_id(ids[k]));
    entry_laws::lemma_key_line(ids[k]);
    assert(all =~= before + seq!["models:"@] + front + seq![key_line(ids[k])] + inner[k] + back
        + after);
    assert(all.subrange(s + 1, e) =~= inner[k]);
    assert(edit_laws::bounds_section(all, start, end)) by {
        assert forall|i: int| 0 <= i < start implies !swap_yaml::opens_models(
            #[trigger] all[i],
        ) by {
            assert(all[i] == before[i]);
        }
        assert forall|i: int| start < i < end implies !swap_yaml::is_top_level(
            #[trigger] all[i],
        ) by {
            assert(all[i] == section_lines(ids, inner)[i - start - 1]);
        }
        if end < all.len() {
            assert(all[end] == after[0]);
            text::lemma_trim_end(after[0]);
            if text::trim_end(after[0]).len() == 0 {
                assert(text::is_white(after[0][0]));
            }
        }
    }
    assert(edit_laws::bounds_entry(all, ids[k], start, end, s, e)) by {
        assert forall|i: int| start < i < s implies swap_yaml::key_of_line(#[trigger] all[i])
            != Some(ids[k]) by {
            assert(all[i] == front[i - start - 1]);
            match swap_yaml::key_of_line(all[i]) {
                Some(id) => {
                    let j = choose|j: int| 0 <= j < ids.take(k).len() && ids.take(k)[j] == id;
                    assert(ids[j] == id);
                },
                None => {},
            }
        }
        assert forall|i: int| s < i < e implies swap_yaml::key_of_line(#[trigger] all[i])
            is None by {
            assert(all[i] == inner[k][i - s - 1]);
            entry_laws::lemma_deep(inner[k][i - s - 1]);
        }
        if e < end {
            assert(all[e] == back[0]);
        }
    }
    edit_laws::lemma_entry_is(all, ids[k], start, end, s, e);
}

proof fn lemma_lines_of(lines: Seq<Seq<char>>)
    requires
        lines.len() > 0,
        forall|i: int|
            0 <= i < lines.len() ==> !(#[trigger] lines[i]).contains('\n') && !lines[i].contains(
                '\r',
            ),
    ensures
        text::lines(text_of(lines)) == lines,
        text::raw_lines(text_of(lines)) == lines,
        swap_yaml::is_ended(text_of(lines)),
        text_of(lines) == swap_yaml::text_of_lines(lines, true),
{
    line_laws::lines_read_back(lines, true);
    let bare = line_laws::bare_lines(lines, true);
    assert forall|i: int| 0 <= i < lines.len() implies bare[i] == #[trigger] lines[i] by {
        assert(!lines[i].contains('\r'));
        if lines[i].len() > 0 {
            assert(lines[i].contains(lines[i].last()));
        }
    }
    assert(bare =~= lines);
}

proof fn lemma_updated(
    ids: Seq<Seq<char>>,
    inner: Seq<Seq<Seq<char>>>,
    k: int,
    body: Seq<Seq<char>>,
)
    requires
        inner.len() == ids.len(),
        0 <= k < ids.len(),
    ensures
        section_lines(ids, inner.update(k, body)) == section_lines(ids.take(k), inner.take(k))
            + seq![key_line(ids[k])] + body + section_lines(ids.skip(k + 1), inner.skip(k + 1)),
{
    let other = inner.update(k, body);
    lemma_split(ids, other, k);
    assert(other.take(k) =~= inner.take(k));
    assert(other.skip(k + 1) =~= inner.skip(k + 1));
}

/// The lines of a file with those below the key of one entry replaced.
proof fn lemma_spliced(
    before: Seq<Seq<char>>,
    ids: Seq<Seq<char>>,
    inner: Seq<Seq<Seq<char>>>,
    after: Seq<Seq<char>>,
    k: int,
    body: Seq<Seq<char>>,
)
    requires
        inner.len() == ids.len(),
        0 <= k < ids.len(),
    ensures
        ({
            let all = file_lines(before, ids, inner, after);
            let s = key_place(before, ids, inner, k);
            &&& s + 1 + inner[k].len() <= all.len()
            &&& file_lines(before, ids, inner.update(k, body), after) == all.take(s + 1) + body
                + all.skip(s + 1 + inner[k].len())
        }),
{
    let all = file_lines(before, ids, inner, after);
    let s = key_place(before, ids, inner, k);
    lemma_split(ids, inner, k);
    lemma_updated(ids, inner, k, body);
    let front = section_lines(ids.take(k), inner.take(k));
    let back = section_lines(ids.skip(k + 1), inner.skip(k + 1));
    let key = seq![key_line(ids[k])];
    let models = seq!["models:"@];
    assert(all =~= (before + models + front + key) + inner[k] + (back + after));
    assert(all.take(s + 1) =~= before + models + front + key);
    assert(all.skip(s + 1 + inner[k].len()) =~= back + after);
    assert(file_lines(before, ids, inner.update(k, body), after) =~= (before + models + front + key)
        + body + (back + after));
}

/// Switching an entry off writes the line `disabled: true` below its key, indented by four,
/// and changes no other line; a file whose entry is off already stays as it is.
pub proof fn switching_off_writes_one_line(
    before: Seq<Seq<char>>,
    ids: Seq<Seq<char>>,
    inner: Seq<Seq<Seq<char>>>,
    after: Seq<Seq<char>>,
    k: int,
)
    requires
        make_a_file(before, ids, inner, after),
        0 <= k < ids.len(),
        forall|j: int| 0 <= j < k ==> #[trigger] ids[j] != ids[k],
    ensures
        ({
            let lines = file_lines(before, ids, inner, after);
            let file = text_of(lines);
            match swap_yaml::span_of_entry(text::lines(file), ids[k]) {
                Some(span) => swap_yaml::with_disabled(file, span, true)
                    == if swap_yaml::entry_of(ids[k], inner[k]).disabled {
                    file
                } else {
                    text_of(
                        file_lines(
                            before,
                            ids,
                            inner.update(k, seq!["    disabled: true"@] + inner[k]),
                            after,
                        ),
                    )
                },
                None => false,
            }
        }),
{
    let lines = file_lines(before, ids, inner, after);
    let file = text_of(lines);
    let s = key_place(before, ids, inner, k);
    let body = seq!["    disabled: true"@] + inner[k];
    lemma_lines_of(lines);
    written_entry_is_found(before, ids, inner, after, k);
    lemma_spliced(before, ids, inner, after, k, body);
    let e = s + 1 + inner[k].len();
    assert(lines.take(s + 1) + body + lines.skip(e) =~= lines.take(s + 1) + seq![
        "    disabled: true"@,
    ] + lines.skip(s + 1)) by {
        assert(lines.skip(s + 1) =~= inner[k] + lines.skip(e)) by {
            assert(lines.subrange(s + 1, e) =~= inner[k]);
            assert(lines.skip(s + 1) =~= lines.subrange(s + 1, e) + lines.skip(e));
        }
    }
}

/// Switching an entry on takes its lines with the key `disabled:` out and changes no other
/// line.
pub proof fn switching_on_takes_lines_out(
    before: Seq<Seq<char>>,
    ids: Seq<Seq<char>>,
    inner: Seq<Seq<Seq<char>>>,
    after: Seq<Seq<char>>,
    k: int,
)
    requires
        make_a_file(before, ids, inner, after),
        0 <= k < ids.len(),
        forall|j: int| 0 <= j < k ==> #[trigger] ids[j] != ids[k],
    ensures
        ({
            let lines = file_lines(before, ids, inner, after);
            let file = text_of(lines);
            match swap_yaml::span_of_entry(text::lines(file), ids[k]) {
                Some(span) => swap_yaml::with_disabled(file, span, false) == text_of(
                    file_lines(
                        before,
                        ids,
                        inner.update(
                            k,
                            inner[k].filter(
                                |line: Seq<char>|
                                    !text::starts_with(text::trim_start(line), "disabled:"@),
                            ),
                        ),
                        after,
                    ),
                ),
                None => false,
            }
        }),
{
    let lines = file_lines(before, ids, inner, after);
    lemma_lines_of(lines);
    written_entry_is_found(before, ids, inner, after, k);
    lemma_filtered(inner[k]);
    lemma_spliced(before, ids, inner, after, k, swap_yaml::enabled_lines(inner[k]));
}

proof fn lemma_filtered(body: Seq<Seq<char>>)
    ensures
        swap_yaml::enabled_lines(body) == body.filter(
            |line: Seq<char>| !text::starts_with(text::trim_start(line), "disabled:"@),
        ),
    decreases body.len(),
{
    reveal(Seq::filter);
    if body.len() > 0 {
        lemma_filtered(body.drop_last());
    }
}

/// Replacing the command of an entry writes the new lines below its `cmd:` key, indented by
/// two more than the key, in place of the old ones, and changes no other line. Blank lines
/// behind the old ones stay.
pub proof fn replacing_writes_the_new_lines(
    before: Seq<Seq<char>>,
    ids: Seq<Seq<char>>,
    inner: Seq<Seq<Seq<char>>>,
    after: Seq<Seq<char>>,
    k: int,
    early: Seq<Seq<char>>,
    n: nat,
    key: Seq<char>,
    old_body: Seq<Seq<char>>,
    later: Seq<Seq<char>>,
    blanks: int,
    body: Seq<Seq<char>>,
)
    requires
        make_a_file(before, ids, inner, after),
        0 <= k < ids.len(),
        forall|j: int| 0 <= j < k ==> #[trigger] ids[j] != ids[k],
        ids[k] != "cmd"@,
        inner[k] == early + seq![cmd_block::spaces(n) + key] + cmd_block::indented(old_body, n + 1)
            + later,
        forall|i: int|
            0 <= i < early.len() ==> !text::starts_with(
                text::trim_start(#[trigger] early[i]),
                "cmd:"@,
            ),
        text::starts_with(key, "cmd:"@),
        old_body.len() > 0 ==> text::trim(old_body.last()).len() > 0,
        0 <= blanks <= later.len(),
        forall|i: int| 0 <= i < blanks ==> text_laws::is_gap(#[trigger] later[i]),
        blanks < later.len() ==> exists|m: nat, rest: Seq<char>|
            m <= n && rest.len() > 0 && !text::is_white(rest[0]) && later[blanks]
                == #[trigger] (cmd_block::spaces(m) + rest),
    ensures
        ({
            let lines = file_lines(before, ids, inner, after);
            let file = text_of(lines);
            match swap_yaml::span_of_entry(text::lines(file), ids[k]) {
                Some(span) => {
                    let at = cmd_block::cmd_line(text::lines(file), span);
                    at < span.1 && cmd_block::with_block_text(file, at, span.1, body) == text_of(
                        file_lines(
                            before,
                            ids,
                            inner.update(
                                k,
                                early + seq![cmd_block::spaces(n) + key] + cmd_block::indented(
                                    body,
                                    n + 2,
                                ) + later,
                            ),
                            after,
                        ),
                    )
                },
                None => false,
            }
        }),
{
    let lines = file_lines(before, ids, inner, after);
    let s = key_place(before, ids, inner, k);
    let e = s + 1 + inner[k].len();
    let first = cmd_block::spaces(n) + key;
    let new_part = cmd_block::indented(body, n + 2);
    lemma_lines_of(lines);
    written_entry_is_found(before, ids, inner, after, k);
    let at = s + 1 + early.len();
    assert(lines.subrange(s + 1, e) == inner[k]);
    assert(inner[k][early.len() as int] == first);
    assert(lines[at] == lines.subrange(s + 1, e)[early.len() as int]);
    lemma_command_line(lines, s, e, ids[k], inner[k], early.len() as int, n, key);
    lemma_old_end(inner[k], early, n, key, old_body, later, blanks);
    let stop = at + 1 + old_body.len();
    block_laws::lemma_block_end_shift(lines, s + 1, e, at);
    assert(cmd_block::block_end(lines.take(e), at) == stop);
    let changed = early + seq![first] + new_part + later;
    lemma_spliced(before, ids, inner, after, k, changed);
    lemma_regrouped(lines, s, e, early, first, cmd_block::indented(old_body, n + 1), later, new_part);
}

proof fn lemma_regrouped(
    lines: Seq<Seq<char>>,
    s: int,
    e: int,
    early: Seq<Seq<char>>,
    first: Seq<char>,
    old_part: Seq<Seq<char>>,
    later: Seq<Seq<char>>,
    new_part: Seq<Seq<char>>,
)
    requires
        0 <= s < e <= lines.len(),
        lines.subrange(s + 1, e) == early + seq![first] + old_part + later,
    ensures
        ({
            let at = s + 1 + early.len();
            lines.take(s + 1) + (early + seq![first] + new_part + later) + lines.skip(e)
                == lines.take(at + 1) + new_part + lines.skip(at + 1 + old_part.len())
        }),
{
    let at = s + 1 + early.len();
    let stop = at + 1 + old_part.len();
    let part = lines.subrange(s + 1, e);
    assert(part.len() == e - s - 1);
    assert forall|i: int| s + 1 <= i < at + 1 implies lines[i] == (early + seq![first])[i - s
        - 1] by {
        assert(lines[i] == part[i - s - 1]);
    }
    assert forall|i: int| stop <= i < e implies lines[i] == later[i - stop] by {
        assert(lines[i] == part[i - s - 1]);
    }
    assert(lines.take(at + 1) =~= lines.take(s + 1) + (early + seq![first]));
    assert(lines.skip(stop) =~= later + lines.skip(e));
    assert(lines.take(s + 1) + (early + seq![first] + new_part + later) + lines.skip(e)
        =~= lines.take(s + 1) + (early + seq![first]) + new_part + (later + lines.skip(e)));
}

proof fn lemma_command_line(
    lines: Seq<Seq<char>>,
    s: int,
    e: int,
    id: Seq<char>,
    body: Seq<Seq<char>>,
    c: int,
    n: nat,
    key: Seq<char>,
)
    requires
        0 <= s < e <= lines.len(),
        lines[s] == key_line(id),
        is_plain_id(id),
        id != "cmd"@,
        lines.subrange(s + 1, e) == body,
        0 <= c < body.len(),
        forall|i: int|
            0 <= i < c ==> !text::starts_with(text::trim_start(#[trigger] body[i]), "cmd:"@),
        body[c] == cmd_block::spaces(n) + key,
        text::starts_with(key, "cmd:"@),
    ensures
        cmd_block::cmd_line(lines, (s, e)) == s + 1 + c,
        cmd_block::indent_of(lines[s + 1 + c]) == n,
{
    let at = s + 1 + c;
    let whole = lines.take(e);
    let keyed = |line: Seq<char>| cmd_block::has_cmd_key(line);
    reveal_strlit("cmd:");
    assert(key.take(4)[0] == key[0]);
    command_laws::lemma_indent(n, key);
    assert(lines[at] == lines.subrange(s + 1, e)[c]);
    assert forall|i: int| s <= i < at implies !keyed(#[trigger] whole[i]) by {
        if i == s {
            lemma_id_is_no_command(id);
        } else {
            assert(whole[i] == lines.subrange(s + 1, e)[i - s - 1]);
        }
    }
    assert(keyed(whole[at]));
    text::lemma_first_index_is(whole, s, keyed, at);
}

proof fn lemma_id_is_no_command(id: Seq<char>)
    requires
        is_plain_id(id),
        id != "cmd"@,
    ensures
        !cmd_block::has_cmd_key(key_line(id)),
{
    let line = key_line(id);
    let rest = id + ":"@;
    reveal_strlit("  ");
    reveal_strlit(":");
    reveal_strlit("cmd:");
    reveal_strlit("cmd");
    assert(!text::is_white(id[0]));
    assert(text_laws::is_gap("  "@));
    text_laws::leading_gap_is_trimmed("  "@, rest);
    assert(line =~= "  "@ + rest);
    if text::starts_with(rest, "cmd:"@) {
        let head = rest.take(4);
        assert(head[0] == 'c' && head[1] == 'm' && head[2] == 'd' && head[3] == ':');
        if id.len() == 3 {
            assert(id =~= "cmd"@);
        } else if id.len() > 3 {
            assert(id[3] == ':');
            assert(id.contains(':'));
        } else {
            assert(rest.len() >= 4);
        }
    }
}

proof fn lemma_old_end(
    entry: Seq<Seq<char>>,
    early: Seq<Seq<char>>,
    n: nat,
    key: Seq<char>,
    old_body: Seq<Seq<char>>,
    later: Seq<Seq<char>>,
    blanks: int,
)
    requires
        entry == early + seq![cmd_block::spaces(n) + key] + cmd_block::indented(old_body, n + 1)
            + later,
        text::starts_with(key, "cmd:"@),
        old_body.len() > 0 ==> text::trim(old_body.last()).len() > 0,
        0 <= blanks <= later.len(),
        forall|i: int| 0 <= i < blanks ==> text_laws::is_gap(#[trigger] later[i]),
        blanks < later.len() ==> exists|m: nat, rest: Seq<char>|
            m <= n && rest.len() > 0 && !text::is_white(rest[0]) && later[blanks]
                == #[trigger] (cmd_block::spaces(m) + rest),
    ensures
        cmd_block::block_end(entry, early.len() as int) == early.len() + 1 + old_body.len(),
{
    let at = early.len() as int;
    let stop = at + 1 + old_body.len();
    let first = cmd_block::spaces(n) + key;
    let part = cmd_block::indented(old_body, n + 1);
    reveal_strlit("cmd:");
    assert(key.take(4)[0] == key[0]);
    command_laws::lemma_indent(n, key);
    assert(entry[at] == first);
    let indent = cmd_block::indent_of(first);
    let ends = |line: Seq<char>| cmd_block::ends_block(line, indent);
    assert forall|i: int| at + 1 <= i < stop implies !ends(#[trigger] entry[i]) by {
        assert(entry[i] == part[i - at - 1]);
        assert(part[i - at - 1] == cmd_block::spaces(n + 1) + old_body[i - at - 1]);
        block_laws::lemma_indented_line(n + 1, old_body[i - at - 1]);
    }
    let to = stop + blanks;
    assert forall|i: int| stop <= i < to implies cmd_block::is_blank(#[trigger] entry[i]) by {
        let line = later[i - stop];
        assert(entry[i] == line);
        assert(text_laws::is_gap(line));
        let none = Seq::<char>::empty();
        text_laws::trailing_gap_is_trimmed(none, line);
        assert(none + line =~= line);
    }
    assert forall|i: int| at + 1 <= i < to implies !ends(#[trigger] entry[i]) by {
        if i >= stop {
            assert(cmd_block::is_blank(entry[i]));
        }
    }
    if blanks < later.len() {
        let (m, rest) = choose|m: nat, rest: Seq<char>|
            m <= n && rest.len() > 0 && !text::is_white(rest[0]) && later[blanks] == #[trigger] (
            cmd_block::spaces(m) + rest);
        command_laws::lemma_indent(m, rest);
        assert(entry[to] == later[blanks]);
        assert(ends(entry[to]));
    }
    text::lemma_first_index_is(entry, at + 1, ends, to);
    if old_body.len() > 0 {
        assert(entry[stop - 1] == part[old_body.len() - 1]);
        assert(part[old_body.len() - 1] == cmd_block::spaces(n + 1) + old_body.last());
        command_laws::lemma_not_blank(old_body.last());
        block_laws::lemma_indented_line(n + 1, old_body.last());
    }
    cmd_block::lemma_blank_tail(entry, at + 1, to, stop);
}

/// A model takes over the state and the size of the first entry that has its id, and keeps
/// everything else; a model without an entry is not touched.
pub proof fn merging_takes_over_the_entry(
    before: SwapModel,
    after: SwapModel,
    entries: Seq<EntrySpec>,
    sizes: Seq<Option<u64>>,
    k: int,
)
    requires
        swap_yaml::is_merged(before, after, entries, sizes),
        sizes.len() == entries.len(),
        0 <= k <= entries.len(),
        forall|j: int| 0 <= j < k ==> (#[trigger] entries[j]).id != before.id@,
        k < entries.len() ==> entries[k].id == before.id@,
    ensures
        k < entries.len() ==> after.disabled == entries[k].disabled && after.size_bytes == sizes[k],
        k < entries.len() ==> after == (SwapModel {
            disabled: after.disabled,
            size_bytes: after.size_bytes,
            ..before
        }),
        k == entries.len() ==> after == before,
{
    lemma_index(entries, before.id@, 0, k);
}

proof fn lemma_index(entries: Seq<EntrySpec>, id: Seq<char>, from: int, k: int)
    requires
        0 <= from <= k <= entries.len(),
        forall|j: int| 0 <= j < k ==> (#[trigger] entries[j]).id != id,
        k < entries.len() ==> entries[k].id == id,
    ensures
        swap_yaml::entry_index(entries, id, from) == if k < entries.len() {
            Some(k)
        } else {
            None
        },
    decreases k - from,
{
    if from < k {
        assert(entries[from].id != id);
        lemma_index(entries, id, from + 1, k);
    }
}

/// An id that was not written is not found, and nothing is found or read in a file without
/// a section of models.
pub proof fn other_ids_are_not_found(
    before: Seq<Seq<char>>,
    ids: Seq<Seq<char>>,
    inner: Seq<Seq<Seq<char>>>,
    after: Seq<Seq<char>>,
    id: Seq<char>,
)
    requires
        make_a_file(before, ids, inner, after),
        !ids.contains(id),
    ensures
        swap_yaml::section_span(file_lines(before, ids, inner, after)) is Some,
        swap_yaml::span_of_entry(file_lines(before, ids, inner, after), id) is None,
        swap_yaml::section_span(before) is None,
        swap_yaml::span_of_entry(before, id) is None,
        swap_yaml::entries_of_lines(before).len() == 0,
{
    let all = file_lines(before, ids, inner, after);
    let start = before.len() as int;
    let end = start + 1 + section_lines(ids, inner).len();
    lemma_keys(ids, inner);
    assert(edit_laws::bounds_section(all, start, end)) by {
        assert(all[start] == "models:"@);
        assert forall|i: int| 0 <= i < start implies !swap_yaml::opens_models(
            #[trigger] all[i],
        ) by {
            assert(all[i] == before[i]);
        }
        assert forall|i: int| start < i < end implies !swap_yaml::is_top_level(
            #[trigger] all[i],
        ) by {
            assert(all[i] == section_lines(ids, inner)[i - start - 1]);
        }
        if end < all.len() {
            assert(all[end] == after[0]);
            text::lemma_trim_end(after[0]);
            if text::trim_end(after[0]).len() == 0 {
                assert(text::is_white(after[0][0]));
            }
        }
    }
    edit_laws::lemma_section_is(all, start, end);
    let section = all.take(end);
    let called = |line: Seq<char>| swap_yaml::key_of_line(line) == Some(id);
    assert forall|i: int| start + 1 <= i < end implies !called(#[trigger] section[i]) by {
        assert(section[i] == section_lines(ids, inner)[i - start - 1]);
    }
    text::lemma_first_index_is(section, start + 1, called, end);
    let opens = |line: Seq<char>| swap_yaml::opens_models(line);
    text::lemma_first_index_is(before, 0, opens, start);
}

/// An entry without a `cmd:` key has no line to replace.
pub proof fn entry_without_command_has_no_block(
    before: Seq<Seq<char>>,
    ids: Seq<Seq<char>>,
    inner: Seq<Seq<Seq<char>>>,
    after: Seq<Seq<char>>,
    k: int,
)
    requires
        make_a_file(before, ids, inner, after),
        0 <= k < ids.len(),
        forall|j: int| 0 <= j < k ==> #[trigger] ids[j] != ids[k],
        ids[k] != "cmd"@,
        forall|i: int|
            0 <= i < inner[k].len() ==> !text::starts_with(
                text::trim_start(#[trigger] inner[k][i]),
                "cmd:"@,
            ),
    ensures
        match swap_yaml::span_of_entry(file_lines(before, ids, inner, after), ids[k]) {
            Some(span) => cmd_block::cmd_line(file_lines(before, ids, inner, after), span)
                == span.1,
            None => false,
        },
{
    let lines = file_lines(before, ids, inner, after);
    let s = key_place(before, ids, inner, k);
    let e = s + 1 + inner[k].len();
    written_entry_is_found(before, ids, inner, after, k);
    let whole = lines.take(e);
    let keyed = |line: Seq<char>| cmd_block::has_cmd_key(line);
    assert forall|i: int| s <= i < e implies !keyed(#[trigger] whole[i]) by {
        if i == s {
            assert(is_plain_id(ids[k]));
            lemma_id_is_no_command(ids[k]);
        } else {
            assert(whole[i] == lines.subrange(s + 1, e)[i - s - 1]);
        }
    }
    text::lemma_first_index_is(whole, s, keyed, e);
}

} // verus!
