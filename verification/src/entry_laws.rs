//! What the entries of a file are read as when they are written from known parts.

use crate::command_laws::announces_model;
use crate::swap_yaml::EntrySpec;
use crate::text_laws::{is_gap, is_word};
use crate::{block_laws, cmd_block, line_laws, swap_yaml, text};
use crate::text_laws;
use vstd::prelude::*;

verus! {

/// Whether a text can be the id of an entry: one word without a colon or a quote that does
/// not start like a comment.
pub open spec fn is_plain_id(id: Seq<char>) -> bool {
    is_word(id) && !id.contains(':') && !id.contains('"') && id[0] != '#'
}

/// The line that opens the entry with this id.
pub open spec fn key_line(id: Seq<char>) -> Seq<char> {
    "  "@ + id + ":"@
}

/// Whether a text has no space in it, and no other white space at its ends.
pub open spec fn is_unspaced(s: Seq<char>) -> bool {
    s.len() > 0 && !text::is_white(s[0]) && !text::is_white(s.last()) && !s.contains(' ')
}

proof fn lemma_key(word: Seq<char>, space: Seq<char>, gap: Seq<char>)
    requires
        is_unspaced(word),
        !word.contains(':'),
        word[0] != '#',
        is_gap(space),
        is_gap(gap),
    ensures
        swap_yaml::key_of_line("  "@ + word + space + ":"@ + gap) == Some(
            swap_yaml::unquoted(word),
        ),
{
    let line = "  "@ + word + space + ":"@ + gap;
    let part = word + space;
    reveal_strlit("  ");
    reveal_strlit(":");
    let rest = line.skip(2);
    assert(line.take(2) =~= "  "@);
    assert(rest =~= part + seq![':'] + gap);
    let n = part.len() as int;
    assert forall|i: int| 0 <= i < n implies rest[i] != ':' by {
        if i < word.len() {
            assert(word.contains(word[i]));
        } else {
            assert(text::is_white(space[i - word.len()]));
        }
    }
    text::lemma_before_is(rest, ':', n);
    assert(rest.take(n) =~= part);
    assert(rest.skip(n + 1) =~= gap);
    let none = Seq::<char>::empty();
    text_laws::gaps_are_trimmed(none, word, space);
    assert(none + word + space =~= part);
    text_laws::gaps_are_trimmed(gap, none, none);
    assert(gap + none + none =~= gap);
    assert(rest[0] == word[0]);
}

proof fn lemma_plain_key(id: Seq<char>, space: Seq<char>, gap: Seq<char>)
    requires
        is_unspaced(id),
        !id.contains(':'),
        !id.contains('"'),
        id[0] != '#',
        is_gap(space),
        is_gap(gap),
    ensures
        swap_yaml::key_of_line("  "@ + id + space + ":"@ + gap) == Some(id),
{
    lemma_key(id, space, gap);
    assert(id.contains(id[0]) && id.contains(id[id.len() - 1]));
}

proof fn lemma_quoted_key(id: Seq<char>, space: Seq<char>, gap: Seq<char>)
    requires
        is_unspaced(id),
        !id.contains(':'),
        !id.contains('"'),
        is_gap(space),
        is_gap(gap),
    ensures
        swap_yaml::key_of_line("  \""@ + id + "\""@ + space + ":"@ + gap) == Some(id),
{
    let word = seq!['"'] + id + seq!['"'];
    assert forall|i: int| 0 <= i < word.len() implies word[i] != ' ' && word[i] != ':' by {
        if 0 < i < word.len() - 1 {
            assert(word[i] == id[i - 1]);
            assert(id.contains(id[i - 1]));
        }
    }
    lemma_key(word, space, gap);
    assert(word.drop_first().drop_last() =~= id);
    assert(word.drop_first().last() == '"');
    reveal_strlit("  ");
    reveal_strlit("  \"");
    reveal_strlit("\"");
    assert("  \""@ =~= "  "@ + seq!['"']);
    assert("\""@ =~= seq!['"']);
    assert("  \""@ + id + "\""@ =~= "  "@ + word);
}

/// Every id opens its entry, plain or in double quotes, whatever characters it is made of
/// and with any white space on both sides of the colon. Only a space, a colon and a double
/// quote cannot stand in it, and a plain one does not start like a comment.
pub proof fn every_id_opens_its_entry(id: Seq<char>, space: Seq<char>, gap: Seq<char>)
    requires
        id.len() > 0,
        forall|i: int|
            0 <= i < id.len() ==> #[trigger] id[i] != ' ' && id[i] != ':' && id[i] != '"',
        !text::is_white(id[0]),
        !text::is_white(id.last()),
        is_gap(space),
        is_gap(gap),
    ensures
        id[0] != '#' ==> swap_yaml::key_of_line("  "@ + id + ":"@) == Some(id),
        id[0] != '#' ==> swap_yaml::key_of_line("  "@ + id + space + ":"@ + gap) == Some(id),
        swap_yaml::key_of_line("  \""@ + id + "\":"@) == Some(id),
        swap_yaml::key_of_line("  \""@ + id + "\""@ + space + ":"@ + gap) == Some(id),
{
    let none = Seq::<char>::empty();
    assert(!id.contains(' ') && !id.contains(':') && !id.contains('"'));
    assert(is_gap(none));
    if id[0] != '#' {
        lemma_plain_key(id, space, gap);
        lemma_plain_key(id, none, none);
        assert("  "@ + id + none + ":"@ + none =~= "  "@ + id + ":"@);
    }
    lemma_quoted_key(id, space, gap);
    lemma_quoted_key(id, none, none);
    lemma_closing_quote();
    assert("  \""@ + id + "\""@ + none + ":"@ + none =~= "  \""@ + id + "\":"@);
}

proof fn lemma_closing_quote()
    ensures
        "\":"@ == "\""@ + ":"@,
{
    reveal_strlit(":");
    reveal_strlit("\"");
    reveal_strlit("\":");
    assert("\":"@ =~= "\""@ + ":"@);
}

/// A double quote on one side only is taken off too.
pub proof fn lone_quotes_are_taken_off(id: Seq<char>)
    requires
        id.len() > 0,
        forall|i: int|
            0 <= i < id.len() ==> #[trigger] id[i] != ' ' && id[i] != ':' && id[i] != '"',
        !text::is_white(id[0]),
        !text::is_white(id.last()),
    ensures
        swap_yaml::key_of_line("  \""@ + id + ":"@) == Some(id),
        id[0] != '#' ==> swap_yaml::key_of_line("  "@ + id + "\":"@) == Some(id),
{
    let none = Seq::<char>::empty();
    assert(is_gap(none));
    assert(id[id.len() - 1] != '"');
    let opened = seq!['"'] + id;
    let closed = id + seq!['"'];
    assert forall|i: int| 0 <= i < opened.len() implies opened[i] != ' ' && opened[i] != ':' by {
        if i > 0 {
            assert(opened[i] == id[i - 1]);
        }
    }
    assert forall|i: int| 0 <= i < closed.len() implies closed[i] != ' ' && closed[i] != ':' by {
        if i < id.len() {
            assert(closed[i] == id[i]);
        }
    }
    lemma_key(opened, none, none);
    assert(opened.drop_first() =~= id);
    if id[0] != '#' {
        lemma_key(closed, none, none);
        assert(closed.drop_last() =~= id);
    }
    lemma_closing_quote();
    lemma_opening_quote();
    assert("  \""@ + id + ":"@ =~= "  "@ + opened + none + ":"@ + none);
    assert("  "@ + id + "\":"@ =~= "  "@ + closed + none + ":"@ + none);
}

proof fn lemma_opening_quote()
    ensures
        "  \""@ == "  "@ + seq!['"'],
        "\""@ == seq!['"'],
{
    reveal_strlit("  ");
    reveal_strlit("  \"");
    reveal_strlit("\"");
    assert("  \""@ =~= "  "@ + seq!['"']);
    assert("\""@ =~= seq!['"']);
}

/// A line opens no entry where it is indented by less or more than two spaces, is a
/// comment, has no colon, has a space in its key, or has something behind its colon.
pub proof fn other_lines_open_no_entry(
    line: Seq<char>,
    rest: Seq<char>,
    key: Seq<char>,
    value: Seq<char>,
)
    requires
        !key.contains(':'),
        text::trim(value).len() > 0,
    ensures
        line.len() < 2 || line[0] != ' ' || line[1] != ' ' ==> swap_yaml::key_of_line(line) is None,
        rest.len() > 0 && (text::is_white(rest[0]) || rest[0] == '#') ==> swap_yaml::key_of_line(
            "  "@ + rest,
        ) is None,
        !rest.contains(':') ==> swap_yaml::key_of_line("  "@ + rest) is None,
        swap_yaml::key_of_line("  "@ + key + ":"@ + value) is None,
        text::trim(key).len() == 0 || text::trim(key).contains(' ') ==> swap_yaml::key_of_line(
            "  "@ + key + ":"@,
        ) is None,
{
    reveal_strlit("  ");
    reveal_strlit(":");
    if text::starts_with(line, "  "@) {
        assert(line.take(2)[0] == ' ' && line.take(2)[1] == ' ');
    }
    let padded = "  "@ + rest;
    assert(padded.skip(2) =~= rest);
    if !rest.contains(':') {
        assert forall|i: int| 0 <= i < rest.len() implies rest[i] != ':' by {
            if rest[i] == ':' {
                assert(rest.contains(':'));
            }
        }
        text::lemma_before_is(rest, ':', rest.len() as int);
    }
    let full = "  "@ + key + ":"@ + value;
    let tail = full.skip(2);
    let n = key.len() as int;
    assert(tail =~= key + seq![':'] + value);
    assert forall|i: int| 0 <= i < n implies tail[i] != ':' by {
        if tail[i] == ':' {
            assert(key[i] == ':');
        }
    }
    text::lemma_before_is(tail, ':', n);
    assert(tail.skip(n + 1) =~= value);
    let bare = ("  "@ + key + ":"@).skip(2);
    assert(bare =~= key + seq![':']);
    assert forall|i: int| 0 <= i < n implies bare[i] != ':' by {
        if bare[i] == ':' {
            assert(key[i] == ':');
        }
    }
    text::lemma_before_is(bare, ':', n);
    assert(bare.take(n) =~= key);
}

/// Whether a line can stand below the key of an entry: it is empty, a comment, or indented
/// in another way than a key.
pub open spec fn is_deep(line: Seq<char>) -> bool {
    line.len() == 0 || line[0] == '#' || (text::is_white(line[0]) && (line.len() < 3 || line[0]
        != ' ' || line[1] != ' ' || text::is_white(line[2]) || line[2] == '#'))
}

/// The lines of entries with these ids and these lines below their keys.
pub open spec fn section_lines(ids: Seq<Seq<char>>, inner: Seq<Seq<Seq<char>>>) -> Seq<Seq<char>>
    decreases ids.len(),
{
    if ids.len() == 0 {
        Seq::empty()
    } else {
        seq![key_line(ids[0])] + inner[0] + section_lines(ids.drop_first(), inner.drop_first())
    }
}

/// Whether every id and every line below a key is as written files have them.
pub open spec fn are_entries(ids: Seq<Seq<char>>, inner: Seq<Seq<Seq<char>>>) -> bool {
    &&& inner.len() == ids.len()
    &&& forall|i: int| 0 <= i < ids.len() ==> is_plain_id(#[trigger] ids[i])
    &&& forall|i: int, k: int|
        0 <= i < inner.len() && 0 <= k < inner[i].len() ==> is_deep(#[trigger] inner[i][k])
}

pub proof fn lemma_key_line(id: Seq<char>)
    requires
        is_plain_id(id),
    ensures
        swap_yaml::key_of_line(key_line(id)) == Some(id),
        !swap_yaml::is_top_level(key_line(id)),
{
    let line = key_line(id);
    assert forall|i: int| 0 <= i < id.len() implies #[trigger] id[i] != ' ' && id[i] != ':' && id[i]
        != '"' by {
        assert(id.contains(id[i]));
        assert(!text::is_white(id[i]));
    }
    assert(!text::is_white(id[0]) && !text::is_white(id[id.len() - 1]));
    every_id_opens_its_entry(id, Seq::empty(), Seq::empty());
    reveal_strlit("  ");
    reveal_strlit(":");
    text::lemma_trim_end(line);
}

pub proof fn lemma_deep(line: Seq<char>)
    requires
        is_deep(line),
    ensures
        swap_yaml::key_of_line(line) is None,
        !swap_yaml::is_top_level(line),
{
    text_laws::core_is_kept(seq!['x']);
    text::lemma_trim_end(line);
    let none = Seq::<char>::empty();
    if line.len() >= 2 && line[0] == ' ' && line[1] == ' ' {
        let rest = line.skip(2);
        reveal_strlit("  ");
        assert(line =~= "  "@ + rest);
        if line.len() == 2 {
            assert(!rest.contains(':'));
        } else {
            assert(rest[0] == line[2]);
        }
        other_lines_open_no_entry(line, rest, none, seq!['x']);
    } else {
        other_lines_open_no_entry(line, none, none, seq!['x']);
    }
}

pub proof fn lemma_others(ids: Seq<Seq<char>>, inner: Seq<Seq<Seq<char>>>)
    requires
        are_entries(ids, inner),
        ids.len() > 0,
    ensures
        are_entries(ids.drop_first(), inner.drop_first()),
{
    let later = ids.drop_first();
    let below = inner.drop_first();
    assert forall|i: int| 0 <= i < later.len() implies is_plain_id(#[trigger] later[i]) by {
        assert(later[i] == ids[i + 1]);
    }
    assert forall|i: int, k: int| 0 <= i < below.len() && 0 <= k < below[i].len() implies is_deep(
        #[trigger] below[i][k],
    ) by {
        assert(below[i][k] == inner[i + 1][k]);
    }
}

proof fn lemma_entries(before: Seq<Seq<char>>, ids: Seq<Seq<char>>, inner: Seq<Seq<Seq<char>>>)
    requires
        are_entries(ids, inner),
    ensures
        swap_yaml::entries_from(before + section_lines(ids, inner), before.len() as int)
            == Seq::new(ids.len(), |i: int| swap_yaml::entry_of(ids[i], inner[i])),
        forall|i: int|
            0 <= i < section_lines(ids, inner).len() ==> !swap_yaml::is_top_level(
                #[trigger] section_lines(ids, inner)[i],
            ),
        ids.len() > 0 ==> section_lines(ids, inner).len() > 0 && swap_yaml::key_of_line(
            section_lines(ids, inner)[0],
        ) is Some,
    decreases ids.len(),
{
    let lines = section_lines(ids, inner);
    let all = before + lines;
    let wanted = Seq::new(ids.len(), |i: int| swap_yaml::entry_of(ids[i], inner[i]));
    if ids.len() == 0 {
        assert(wanted =~= Seq::<EntrySpec>::empty());
    } else {
        let head = seq![key_line(ids[0])] + inner[0];
        let rest = section_lines(ids.drop_first(), inner.drop_first());
        let from = before.len() as int;
        let end = from + 1 + inner[0].len();
        assert(is_plain_id(ids[0]));
        lemma_key_line(ids[0]);
        lemma_others(ids, inner);
        lemma_entries(before + head, ids.drop_first(), inner.drop_first());
        assert(all =~= before + head + rest);
        assert(all[from] == key_line(ids[0]));
        let keyed = |line: Seq<char>| swap_yaml::key_of_line(line) is Some;
        assert forall|i: int| from + 1 <= i < end implies !keyed(#[trigger] all[i]) by {
            assert(all[i] == inner[0][i - from - 1]);
            lemma_deep(inner[0][i - from - 1]);
        }
        if ids.len() > 1 {
            assert(all[end] == rest[0]);
        } else {
            assert(rest.len() == 0);
        }
        text::lemma_first_index_is(all, from + 1, keyed, end);
        assert(all.subrange(from + 1, end) =~= inner[0]);
        assert(wanted =~= seq![swap_yaml::entry_of(ids[0], inner[0])] + Seq::new(
            ids.drop_first().len(),
            |i: int| swap_yaml::entry_of(ids.drop_first()[i], inner.drop_first()[i]),
        ));
        assert forall|i: int| 0 <= i < lines.len() implies !swap_yaml::is_top_level(
            #[trigger] lines[i],
        ) by {
            if i == 0 {
                assert(lines[0] == key_line(ids[0]));
            } else if i <= inner[0].len() {
                assert(lines[i] == inner[0][i - 1]);
                lemma_deep(inner[0][i - 1]);
            } else {
                assert(lines[i] == rest[i - 1 - inner[0].len()]);
            }
        }
    }
}

/// The entries that are written below `models:` are read one by one, in order, each with
/// its own id and its own lines. They end at the next line that starts with neither white
/// space nor the sign of a comment; other lines before and behind do not count.
pub proof fn written_entries_are_read(
    before: Seq<Seq<char>>,
    ids: Seq<Seq<char>>,
    inner: Seq<Seq<Seq<char>>>,
    after: Seq<Seq<char>>,
)
    requires
        forall|i: int| 0 <= i < before.len() ==> #[trigger] before[i] != "models:"@,
        are_entries(ids, inner),
        after.len() > 0 ==> after[0].len() > 0 && !text::is_white(after[0][0]) && after[0][0]
            != '#',
    ensures
        swap_yaml::entries_of_lines(
            before + seq!["models:"@] + section_lines(ids, inner) + after,
        ) == Seq::new(ids.len(), |i: int| swap_yaml::entry_of(ids[i], inner[i])),
{
    let front = before + seq!["models:"@];
    let lines = front + section_lines(ids, inner);
    let all = front + section_lines(ids, inner) + after;
    let start = before.len() as int;
    let end = lines.len() as int;
    lemma_entries(front, ids, inner);
    let opens = |line: Seq<char>| swap_yaml::opens_models(line);
    let top = |line: Seq<char>| swap_yaml::is_top_level(line);
    assert forall|i: int| 0 <= i < start implies !opens(#[trigger] all[i]) by {
        assert(all[i] == before[i]);
    }
    assert(all[start] == "models:"@);
    text::lemma_first_index_is(all, 0, opens, start);
    assert forall|i: int| start + 1 <= i < end implies !top(#[trigger] all[i]) by {
        assert(all[i] == section_lines(ids, inner)[i - start - 1]);
    }
    if after.len() > 0 {
        assert(all[end] == after[0]);
        text::lemma_trim_end(after[0]);
        if text::trim_end(after[0]).len() == 0 {
            assert(text::is_white(after[0][0]));
        }
        assert(top(all[end]));
    }
    text::lemma_first_index_is(all, start + 1, top, end);
    assert(all.take(end) =~= lines);
}

/// The same of the text of the file, whose lines end in line feeds.
pub proof fn written_file_is_read(
    before: Seq<Seq<char>>,
    ids: Seq<Seq<char>>,
    inner: Seq<Seq<Seq<char>>>,
    after: Seq<Seq<char>>,
)
    requires
        forall|i: int| 0 <= i < before.len() ==> #[trigger] before[i] != "models:"@,
        are_entries(ids, inner),
        after.len() > 0 ==> after[0].len() > 0 && !text::is_white(after[0][0]) && after[0][0]
            != '#',
        ({
            let all = before + seq!["models:"@] + section_lines(ids, inner) + after;
            forall|i: int|
                0 <= i < all.len() ==> !(#[trigger] all[i]).contains('\n') && !all[i].contains('\r')
        }),
    ensures
        swap_yaml::entries_of(
            text::join(
                before + seq!["models:"@] + section_lines(ids, inner) + after,
                seq!['\n'],
            ) + seq!['\n'],
        ) == Seq::new(ids.len(), |i: int| swap_yaml::entry_of(ids[i], inner[i])),
{
    let all = before + seq!["models:"@] + section_lines(ids, inner) + after;
    line_laws::lines_read_back(all, true);
    let bare = line_laws::bare_lines(all, true);
    assert forall|i: int| 0 <= i < all.len() implies bare[i] == #[trigger] all[i] by {
        assert(!all[i].contains('\r'));
        if all[i].len() > 0 {
            assert(all[i].contains(all[i].last()));
        }
    }
    assert(bare =~= all);
    written_entries_are_read(before, ids, inner, after);
}

/// An entry is switched off where a line of it sets `disabled:` to a value that starts with
/// `true`, whatever stands before and behind.
pub proof fn disabled_entries_are_known(
    gap: Seq<char>,
    space: Seq<char>,
    more: Seq<char>,
    id: Seq<char>,
    before: Seq<Seq<char>>,
    after: Seq<Seq<char>>,
)
    requires
        is_gap(gap),
        is_gap(space),
    ensures
        swap_yaml::disables(gap + "disabled:"@ + space + "true"@ + more),
        swap_yaml::is_disabled_key(gap + "disabled:"@ + more),
        swap_yaml::entry_of(
            id,
            before + seq![gap + "disabled:"@ + space + "true"@ + more] + after,
        ).disabled,
        swap_yaml::entry_of(id, before).id == id,
{
    reveal_strlit("disabled:");
    reveal_strlit("true");
    let kept = "disabled:"@ + space + "true"@ + more;
    let line = gap + "disabled:"@ + space + "true"@ + more;
    assert(line =~= gap + kept);
    text_laws::leading_gap_is_trimmed(gap, kept);
    assert(kept.take(9) =~= "disabled:"@);
    let value = "true"@ + more;
    let rest = kept.skip(9);
    assert(rest =~= space + value);
    assert(!text::starts_with(rest, "disabled:"@)) by {
        if text::starts_with(rest, "disabled:"@) {
            assert(rest.take(9)[0] == 'd');
            if space.len() > 0 {
                assert(text::is_white(space[0]));
            }
        }
    }
    assert(swap_yaml::without_prefixes(kept, "disabled:"@) == rest) by {
        reveal_with_fuel(swap_yaml::without_prefixes, 2);
    }
    text_laws::leading_gap_is_trimmed(space, value);
    lemma_trim_end_keeps(value, 4);
    assert(value.take(4) =~= "true"@);
    let bare = gap + ("disabled:"@ + more);
    assert(bare =~= gap + "disabled:"@ + more);
    text_laws::leading_gap_is_trimmed(gap, "disabled:"@ + more);
    assert(("disabled:"@ + more).take(9) =~= "disabled:"@);
    let body = before + seq![line] + after;
    assert(body[before.len() as int] == line);
}

/// The characters up to one that is not white stay when white space at the end is taken
/// off.
proof fn lemma_trim_end_keeps(s: Seq<char>, n: int)
    requires
        0 < n <= s.len(),
        !text::is_white(s[n - 1]),
    ensures
        text::trim_end(s).len() >= n,
        text::trim_end(s).take(n) == s.take(n),
{
    text::lemma_trim_end(s);
    let kept = text::trim_end(s);
    if kept.len() < n {
        assert(text::is_white(s[n - 1]));
    }
    assert(kept.take(n) =~= s.take(n));
}

/// An entry is on where no line of it has the key `disabled:`, and a line with that key and
/// a value that does not start with `true` does not switch it off.
pub proof fn enabled_entries_are_known(
    gap: Seq<char>,
    space: Seq<char>,
    value: Seq<char>,
    id: Seq<char>,
    body: Seq<Seq<char>>,
)
    requires
        is_gap(gap),
        is_gap(space),
        value.len() == 0 || (!text::is_white(value[0]) && value[0] != 't' && value[0] != 'd'),
    ensures
        !swap_yaml::disables(gap + "disabled:"@ + space + value),
        (forall|i: int|
            0 <= i < body.len() ==> !text::starts_with(
                text::trim_start(#[trigger] body[i]),
                "disabled:"@,
            )) ==> !swap_yaml::entry_of(id, body).disabled,
{
    reveal_strlit("disabled:");
    reveal_strlit("true");
    let kept = "disabled:"@ + space + value;
    let line = gap + "disabled:"@ + space + value;
    assert(line =~= gap + kept);
    text_laws::leading_gap_is_trimmed(gap, kept);
    assert(kept.take(9) =~= "disabled:"@);
    let rest = kept.skip(9);
    assert(rest =~= space + value);
    assert(!text::starts_with(rest, "disabled:"@)) by {
        if text::starts_with(rest, "disabled:"@) {
            assert(rest.take(9)[0] == 'd');
            if space.len() > 0 {
                assert(text::is_white(space[0]));
            }
        }
    }
    assert(swap_yaml::without_prefixes(kept, "disabled:"@) == rest) by {
        reveal_with_fuel(swap_yaml::without_prefixes, 2);
    }
    text_laws::leading_gap_is_trimmed(space, value);
    text::lemma_trim_end(value);
    let read = text::trim(rest);
    if text::starts_with(read, "true"@) {
        assert(read.take(4)[0] == 't');
        assert(read[0] == value[0]);
    }
    if forall|i: int|
        0 <= i < body.len() ==> !text::starts_with(
            text::trim_start(#[trigger] body[i]),
            "disabled:"@,
        ) {
        assert forall|i: int| 0 <= i < body.len() implies !swap_yaml::disables(
            #[trigger] body[i],
        ) by {
            assert(!text::starts_with(text::trim_start(body[i]), "disabled:"@));
        }
    }
}

proof fn lemma_flag_index(tokens: Seq<Seq<char>>, from: int, at: int)
    requires
        0 <= from <= at,
        at + 1 < tokens.len(),
        forall|i: int| from <= i < at ==> !announces_model(#[trigger] tokens[i]),
        announces_model(tokens[at]),
    ensures
        swap_yaml::model_flag_index(tokens, from) == at,
    decreases at - from,
{
    if from < at {
        assert(!announces_model(tokens[from]));
        lemma_flag_index(tokens, from + 1, at);
    }
}

proof fn lemma_no_flag_index(tokens: Seq<Seq<char>>, from: int)
    requires
        0 <= from,
        forall|i: int| 0 <= i < tokens.len() - 1 ==> !announces_model(#[trigger] tokens[i]),
    ensures
        swap_yaml::model_flag_index(tokens, from) == tokens.len(),
    decreases tokens.len() - from,
{
    if from + 1 < tokens.len() {
        assert(!announces_model(tokens[from]));
        lemma_no_flag_index(tokens, from + 1);
    }
}

/// The model path on a line is the word behind the first `-m` or `--model`, whatever words
/// stand around them, unless it starts like a flag or the line is a comment.
pub proof fn path_behind_the_flag_is_found(
    gap: Seq<char>,
    head: Seq<Seq<char>>,
    flag: Seq<char>,
    path: Seq<char>,
    tail: Seq<Seq<char>>,
)
    requires
        is_gap(gap),
        forall|i: int|
            0 <= i < head.len() ==> is_word(#[trigger] head[i]) && !announces_model(head[i]),
        flag == "-m"@ || flag == "--model"@,
        is_word(path),
        forall|i: int| 0 <= i < tail.len() ==> is_word(#[trigger] tail[i]),
    ensures
        swap_yaml::path_on_line(
            gap + text::join(head + seq![flag, path] + tail, seq![' ']),
        ) == if path[0] == '-' || (head.len() > 0 && head[0][0] == '#') {
            None
        } else {
            Some(path)
        },
{
    let list = head + seq![flag, path] + tail;
    let s = text::join(list, seq![' ']);
    let line = gap + s;
    let n = head.len() as int;
    reveal_strlit("-m");
    reveal_strlit("--model");
    assert forall|i: int| 0 <= i < list.len() implies is_word(#[trigger] list[i]) by {
        if i < n {
            assert(list[i] == head[i]);
        } else if i == n {
            assert(list[i] == flag);
        } else if i > n + 1 {
            assert(list[i] == tail[i - n - 2]);
        }
    }
    text_laws::spaced_words_are_read(list, ' ');
    text_laws::leading_gap_is_trimmed(gap, s);
    assert(s[0] == list[0][0]) by {
        assert(is_word(list[0]));
    }
    assert forall|i: int| 0 <= i < n implies !announces_model(#[trigger] list[i]) by {
        assert(list[i] == head[i]);
    }
    assert(list[n] == flag && list[n + 1] == path);
    lemma_flag_index(list, 0, n);
    if n > 0 {
        assert(list[0] == head[0]);
    }
}

/// A line on which no word is announced has no model path.
pub proof fn other_lines_have_no_path(gap: Seq<char>, words: Seq<Seq<char>>)
    requires
        is_gap(gap),
        forall|i: int| 0 <= i < words.len() ==> is_word(#[trigger] words[i]),
        forall|i: int| 0 <= i < words.len() - 1 ==> !announces_model(#[trigger] words[i]),
    ensures
        swap_yaml::path_on_line(gap + text::join(words, seq![' '])) is None,
{
    let s = text::join(words, seq![' ']);
    text_laws::spaced_words_are_read(words, ' ');
    text_laws::leading_gap_is_trimmed(gap, s);
    lemma_no_flag_index(words, 0);
}

/// The model path of an entry is the first one in its command: on the first line with the
/// key `cmd:`, or in the block below it. Other lines of the entry name none.
pub proof fn path_in_the_command_is_found(
    id: Seq<char>,
    before: Seq<Seq<char>>,
    key: Seq<char>,
    early: Seq<Seq<char>>,
    line: Seq<char>,
    later: Seq<Seq<char>>,
    after: Seq<Seq<char>>,
    n: nat,
)
    requires
        forall|i: int|
            0 <= i < before.len() ==> !text::starts_with(
                text::trim_start(#[trigger] before[i]),
                "cmd:"@,
            ),
        text::starts_with(key, "cmd:"@),
        swap_yaml::path_on_line(cmd_block::spaces(n) + key) is None,
        forall|i: int|
            0 <= i < early.len() ==> swap_yaml::path_on_line(
                #[trigger] (cmd_block::spaces(n + 2) + early[i]),
            ) is None,
        swap_yaml::path_on_line(cmd_block::spaces(n + 2) + line) is Some,
    ensures
        swap_yaml::entry_of(
            id,
            before + seq![cmd_block::spaces(n) + key] + cmd_block::indented(
                early + seq![line] + later,
                n + 2,
            ) + after,
        ).model_path == swap_yaml::path_on_line(cmd_block::spaces(n + 2) + line),
        (forall|i: int| 0 <= i < after.len() ==> !text::starts_with(
            text::trim_start(#[trigger] after[i]),
            "cmd:"@,
        )) ==> swap_yaml::entry_of(id, before + after).model_path is None,
{
    let first = cmd_block::spaces(n) + key;
    let part = cmd_block::indented(early + seq![line] + later, n + 2);
    let body = before + seq![first] + part + after;
    let at = before.len() as int;
    reveal_strlit("cmd:");
    assert(key[0] == key.take(4)[0]);
    assert(is_gap(cmd_block::spaces(n)));
    text_laws::leading_gap_is_trimmed(cmd_block::spaces(n), key);
    assert(first.take(first.len() - key.len()) =~= cmd_block::spaces(n));
    let keyed = |line: Seq<char>| cmd_block::has_cmd_key(line);
    assert forall|i: int| 0 <= i < at implies !keyed(#[trigger] body[i]) by {
        assert(body[i] == before[i]);
    }
    assert(body[at] == first);
    text::lemma_first_index_is(body, 0, keyed, at);
    lemma_bytes(n);
    let indent = cmd_block::indent_of(first);
    assert(indent == n);
    block_laws::lemma_block_end(body, at);
    let stop = cmd_block::block_end(body, at);
    let to = block_laws::block_stop(body, at);
    let ends = |line: Seq<char>| cmd_block::ends_block(line, indent);
    let place = at + 1 + early.len();
    let wanted = cmd_block::spaces(n + 2) + line;
    assert(part[early.len() as int] == wanted);
    assert(body[place] == wanted);
    lemma_path_not_blank(wanted);
    assert forall|i: int| at + 1 <= i <= place implies !ends(#[trigger] body[i]) by {
        let own = (early + seq![line] + later)[i - at - 1];
        assert(body[i] == part[i - at - 1]);
        assert(part[i - at - 1] == cmd_block::spaces(n + 2) + own);
        block_laws::lemma_indented_line(n + 2, own);
    }
    text::lemma_first_index(body, at + 1, ends);
    assert(to > place);
    assert(stop > place) by {
        if stop <= place {
            assert(cmd_block::is_blank(body[place]));
        }
    }
    let command = body.subrange(at, stop);
    assert(swap_yaml::command_lines(body) == command);
    let k = place - at;
    assert forall|i: int| 0 <= i < k implies swap_yaml::path_on_line(
        #[trigger] command[i],
    ) is None by {
        if i == 0 {
            assert(command[0] == first);
        } else {
            assert(command[i] == part[i - 1]);
            assert(part[i - 1] == cmd_block::spaces(n + 2) + early[i - 1]);
        }
    }
    assert(command[k] == wanted);
    lemma_first_path(command, k);
    if forall|i: int| 0 <= i < after.len() ==> !text::starts_with(
        text::trim_start(#[trigger] after[i]),
        "cmd:"@,
    ) {
        let all = before + after;
        assert forall|i: int| 0 <= i < all.len() implies !keyed(#[trigger] all[i]) by {
            if i < before.len() {
                assert(all[i] == before[i]);
            } else {
                assert(all[i] == after[i - before.len()]);
            }
        }
        text::lemma_first_index_is(all, 0, keyed, all.len() as int);
    }
}

/// A path on the line of the key itself is the path of the entry.
pub proof fn path_behind_the_key_is_found(
    id: Seq<char>,
    before: Seq<Seq<char>>,
    line: Seq<char>,
    after: Seq<Seq<char>>,
)
    requires
        forall|i: int|
            0 <= i < before.len() ==> !text::starts_with(
                text::trim_start(#[trigger] before[i]),
                "cmd:"@,
            ),
        text::starts_with(text::trim_start(line), "cmd:"@),
        swap_yaml::path_on_line(line) is Some,
    ensures
        swap_yaml::entry_of(id, before + seq![line] + after).model_path
            == swap_yaml::path_on_line(line),
{
    let body = before + seq![line] + after;
    let at = before.len() as int;
    let keyed = |line: Seq<char>| cmd_block::has_cmd_key(line);
    assert forall|i: int| 0 <= i < at implies !keyed(#[trigger] body[i]) by {
        assert(body[i] == before[i]);
    }
    assert(body[at] == line);
    text::lemma_first_index_is(body, 0, keyed, at);
    block_laws::lemma_block_end(body, at);
    let command = body.subrange(at, cmd_block::block_end(body, at));
    assert(command[0] == line);
}

proof fn lemma_bytes(n: nat)
    ensures
        text::byte_len(cmd_block::spaces(n)) == n,
    decreases n,
{
    let s = cmd_block::spaces(n);
    if n > 0 {
        let less = cmd_block::spaces((n - 1) as nat);
        lemma_bytes((n - 1) as nat);
        assert(s =~= seq![' '] + less);
        text::lemma_byte_len_concat(seq![' '], less);
        assert(text::byte_len(seq![' ']) == 1) by {
            reveal_with_fuel(text::byte_len, 2);
        }
    }
}

proof fn lemma_path_not_blank(line: Seq<char>)
    requires
        swap_yaml::path_on_line(line) is Some,
    ensures
        !cmd_block::is_blank(line),
{
    let kept = text::trim_start(line);
    text::lemma_trim_start(line);
    text::lemma_trim_end(line);
    if cmd_block::is_blank(line) {
        if kept.len() > 0 {
            assert(text::is_white(line[line.len() - kept.len()]));
        }
        assert(text::words(kept).len() == 0);
    }
}

proof fn lemma_first_path(body: Seq<Seq<char>>, at: int)
    requires
        0 <= at < body.len(),
        forall|i: int| 0 <= i < at ==> swap_yaml::path_on_line(#[trigger] body[i]) is None,
        swap_yaml::path_on_line(body[at]) is Some,
    ensures
        swap_yaml::first_path(body) == swap_yaml::path_on_line(body[at]),
    decreases at,
{
    if at > 0 {
        let rest = body.drop_first();
        assert(swap_yaml::path_on_line(body[0]) is None);
        assert forall|i: int| 0 <= i < at - 1 implies swap_yaml::path_on_line(
            #[trigger] rest[i],
        ) is None by {
            assert(rest[i] == body[i + 1]);
        }
        lemma_first_path(rest, at - 1);
    }
}

} // verus!
