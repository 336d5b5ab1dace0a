//! An entry whose command was imported and saved into the file is read back from the
//! file as the same state.

use crate::param_builder;
use crate::param_builder::BuilderSpec;
use crate::param_registry;
use crate::param_registry::{ValueSpec, REGISTRY_LEN};
use crate::param_values;
use crate::param_values::ValuesSpec;
use crate::{block_laws, cmd_block, edit_laws, import_laws, line_laws, number, registry_laws};
use crate::{reading_laws, registry_table, round_trip, swap_yaml, text, token_laws};
use vstd::prelude::*;

verus! {

/// Whether a text holds no line feed.
pub open spec fn is_one_line(s: Seq<char>) -> bool {
    !s.contains('\n')
}

/// Whether none of the texts holds a line feed.
pub open spec fn are_one_line(list: Seq<Seq<char>>) -> bool {
    forall|i: int| 0 <= i < list.len() ==> is_one_line(#[trigger] list[i])
}

/// Whether no token of the lines holds a line feed.
pub open spec fn lines_are_one_line(list: Seq<Seq<Seq<char>>>) -> bool {
    forall|i: int| 0 <= i < list.len() ==> are_one_line(#[trigger] list[i])
}

/// Whether no text among the values, and no custom line, holds a line feed.
pub open spec fn values_are_one_line(values: ValuesSpec) -> bool {
    &&& forall|i: int|
        0 <= i < values.values.len() ==> (match #[trigger] values.values[i] {
            ValueSpec::Text(t) => is_one_line(t),
            _ => true,
        })
    &&& are_one_line(values.custom)
}

proof fn lemma_concat(a: Seq<char>, b: Seq<char>)
    requires
        is_one_line(a),
        is_one_line(b),
    ensures
        is_one_line(a + b),
{
    if (a + b).contains('\n') {
        let i = choose|i: int| 0 <= i < (a + b).len() && (a + b)[i] == '\n';
        if i < a.len() {
            assert(a[i] == '\n');
        } else {
            assert(b[i - a.len()] == '\n');
        }
    }
}

proof fn lemma_within(s: Seq<char>, from: int, to: int)
    requires
        is_one_line(s),
        0 <= from <= to <= s.len(),
    ensures
        is_one_line(s.subrange(from, to)),
{
    let part = s.subrange(from, to);
    if part.contains('\n') {
        let i = choose|i: int| 0 <= i < part.len() && part[i] == '\n';
        assert(s[from + i] == '\n');
    }
}

proof fn lemma_join(list: Seq<Seq<char>>)
    requires
        are_one_line(list),
    ensures
        is_one_line(text::join(list, seq![' '])),
    decreases list.len(),
{
    if list.len() > 0 {
        assert(is_one_line(list[0]));
        if list.len() > 1 {
            let rest = list.drop_first();
            assert forall|i: int| 0 <= i < rest.len() implies is_one_line(#[trigger] rest[i]) by {
                assert(rest[i] == list[i + 1]);
            }
            lemma_join(rest);
            assert(is_one_line(seq![' ']));
            lemma_concat(list[0], seq![' ']);
            lemma_concat(list[0] + seq![' '], text::join(rest, seq![' ']));
        }
    }
}

proof fn lemma_trim(s: Seq<char>)
    requires
        is_one_line(s),
    ensures
        is_one_line(text::trim(s)),
{
    let kept = text::trim_start(s);
    text::lemma_trim_start(s);
    lemma_within(s, s.len() - kept.len(), s.len() as int);
    assert(s.subrange(s.len() - kept.len(), s.len() as int) =~= kept);
    text::lemma_trim_end(kept);
    lemma_within(kept, 0, text::trim_end(kept).len() as int);
    assert(kept.subrange(0, text::trim_end(kept).len() as int) =~= text::trim_end(kept));
}

proof fn lemma_unquoted(token: Seq<char>)
    requires
        is_one_line(token),
    ensures
        is_one_line(cmd_block::without_quotes(token)),
{
    if token.len() >= 2 {
        lemma_within(token, 1, token.len() - 1);
    }
}

proof fn lemma_drop_first(list: Seq<Seq<char>>)
    requires
        are_one_line(list),
        list.len() > 0,
    ensures
        are_one_line(list.drop_first()),
{
    let rest = list.drop_first();
    assert forall|i: int| 0 <= i < rest.len() implies is_one_line(#[trigger] rest[i]) by {
        assert(rest[i] == list[i + 1]);
    }
}

proof fn lemma_stored(values: ValuesSpec, i: int, token: Seq<char>)
    requires
        values_are_one_line(values),
        0 <= i < values.values.len(),
        is_one_line(token),
    ensures
        match param_registry::value_of_token(registry_table::flag_table()[i].kind, token) {
            Some(v) => values_are_one_line(values.with_value(i, v)),
            None => true,
        },
{
    match param_registry::value_of_token(registry_table::flag_table()[i].kind, token) {
        Some(v) => {
            let more = values.with_value(i, v);
            assert forall|k: int| 0 <= k < more.values.len() implies (match #[trigger] more.values[k] {
                ValueSpec::Text(t) => is_one_line(t),
                _ => true,
            }) by {
                if k != i {
                    assert(more.values[k] == values.values[k]);
                }
            }
            assert(more.custom == values.custom);
        },
        None => {},
    }
}

proof fn lemma_custom(values: ValuesSpec, line: Seq<char>)
    requires
        values_are_one_line(values),
        is_one_line(line),
    ensures
        values_are_one_line(values.with_custom(line)),
{
    let more = values.with_custom(line);
    assert(more.values == values.values);
    assert forall|k: int| 0 <= k < more.custom.len() implies is_one_line(
        #[trigger] more.custom[k],
    ) by {
        if k < values.custom.len() {
            assert(more.custom[k] == values.custom[k]);
        }
    }
}

/// Reading tokens brings no line feed into the values.
proof fn lemma_read_tokens(values: ValuesSpec, list: Seq<Seq<char>>)
    requires
        values.values.len() >= REGISTRY_LEN,
        values_are_one_line(values),
        are_one_line(list),
    ensures
        values_are_one_line(param_values::read_tokens(values, list)),
    decreases list.len(),
{
    if list.len() > 0 {
        let token = list[0];
        let rest = list.drop_first();
        assert(is_one_line(list[0]));
        lemma_join(list);
        lemma_custom(values, text::join(list, seq![' ']));
        lemma_custom(values, token);
        lemma_drop_first(list);
        param_registry::lemma_find_flag_from(token, 0);
        match text::split_once(token, '=') {
            Some((name, value)) => {
                text::lemma_before(token, '=');
                lemma_within(token, token.len() - value.len(), token.len() as int);
                assert(token.subrange(token.len() - value.len(), token.len() as int) =~= value);
                lemma_unquoted(value);
                param_registry::lemma_find_flag_from(name, 0);
                match param_registry::find_flag(name) {
                    Some(i) => {
                        lemma_stored(values, i, cmd_block::without_quotes(value));
                    },
                    None => {},
                }
                lemma_read_tokens(
                    param_values::read_assignment(values, token, name, value),
                    rest,
                );
            },
            None => match param_registry::find_flag(token) {
                None => {
                    let n = param_values::next_flag(list, 1);
                    let run = list.take(n);
                    let others = list.skip(n);
                    param_values::lemma_next_flag(list, 1);
                    assert forall|i: int| 0 <= i < run.len() implies is_one_line(
                        #[trigger] run[i],
                    ) by {
                        assert(run[i] == list[i]);
                    }
                    assert forall|i: int| 0 <= i < others.len() implies is_one_line(
                        #[trigger] others[i],
                    ) by {
                        assert(others[i] == list[n + i]);
                    }
                    lemma_join(run);
                    lemma_custom(values, text::join(run, seq![' ']));
                    lemma_read_tokens(
                        values.with_custom(text::join(run, seq![' '])),
                        others,
                    );
                },
                Some(i) => {
                    let on = values.with_value(i, ValueSpec::On);
                    assert forall|k: int| 0 <= k < on.values.len() implies (
                    match #[trigger] on.values[k] {
                        ValueSpec::Text(t) => is_one_line(t),
                        _ => true,
                    }) by {
                        if k != i {
                            assert(on.values[k] == values.values[k]);
                        }
                    }
                    lemma_read_tokens(on, rest);
                    if rest.len() > 0 {
                        let word = rest[0];
                        assert(is_one_line(rest[0]));
                        lemma_unquoted(word);
                        lemma_stored(values, i, cmd_block::without_quotes(word));
                        lemma_concat(token, seq![' ']);
                        lemma_concat(token + seq![' '], word);
                        lemma_custom(values, token + seq![' '] + word);
                        lemma_drop_first(rest);
                        match param_registry::value_of_token(
                            registry_table::flag_table()[i].kind,
                            cmd_block::without_quotes(word),
                        ) {
                            Some(v) => {
                                lemma_read_tokens(values.with_value(i, v), rest.drop_first());
                            },
                            None => {
                                lemma_read_tokens(
                                    values.with_custom(token + seq![' '] + word),
                                    rest.drop_first(),
                                );
                            },
                        }
                    }
                },
            },
        }
    }
}

proof fn lemma_skip_two(list: Seq<Seq<char>>)
    requires
        are_one_line(list),
        list.len() >= 2,
    ensures
        are_one_line(list.skip(2)),
{
    let rest = list.skip(2);
    assert forall|i: int| 0 <= i < rest.len() implies is_one_line(#[trigger] rest[i]) by {
        assert(rest[i] == list[i + 2]);
    }
}

proof fn lemma_front(token: Seq<char>, others: Seq<Seq<char>>)
    requires
        is_one_line(token),
        are_one_line(others),
    ensures
        are_one_line(seq![token] + others),
{
    let list = seq![token] + others;
    assert forall|i: int| 0 <= i < list.len() implies is_one_line(#[trigger] list[i]) by {
        if i > 0 {
            assert(list[i] == others[i - 1]);
        }
    }
}

proof fn lemma_lifted(list: Seq<Seq<char>>, found: Option<Seq<char>>)
    requires
        are_one_line(list),
        found is Some ==> is_one_line(found->0),
    ensures
        are_one_line(cmd_block::without_model(list)),
        cmd_block::last_model(list, found) is Some ==> is_one_line(
            cmd_block::last_model(list, found)->0,
        ),
    decreases list.len(),
{
    if list.len() > 0 {
        assert(is_one_line(list[0]));
        lemma_drop_first(list);
        if list.len() >= 2 && swap_yaml::is_model_flag(list[0]) {
            assert(is_one_line(list[1]));
            lemma_unquoted(list[1]);
            lemma_skip_two(list);
            lemma_lifted(list.skip(2), Some(cmd_block::without_quotes(list[1])));
        } else {
            lemma_lifted(list.drop_first(), found);
            lemma_front(list[0], cmd_block::without_model(list.drop_first()));
        }
    }
}

proof fn lemma_without_port(list: Seq<Seq<char>>)
    requires
        are_one_line(list),
    ensures
        are_one_line(param_values::without_port(list)),
    decreases list.len(),
{
    if list.len() > 0 {
        assert(is_one_line(list[0]));
        lemma_drop_first(list);
        lemma_without_port(list.drop_first());
        lemma_front(list[0], param_values::without_port(list.drop_first()));
        if list.len() >= 2 {
            lemma_skip_two(list);
            lemma_without_port(list.skip(2));
        }
    }
}

/// Importing the lines of a block brings in no line feed.
proof fn lemma_import(list: Seq<Seq<Seq<char>>>)
    requires
        lines_are_one_line(list),
    ensures
        ({
            let values = param_values::read_lines(
                ValuesSpec::unset(REGISTRY_LEN as nat),
                cmd_block::flag_tokens(list),
            );
            &&& values.values.len() == REGISTRY_LEN
            &&& values_are_one_line(values)
        }),
        cmd_block::model_of(list) is Some ==> is_one_line(cmd_block::model_of(list)->0),
    decreases list.len(),
{
    let unset = ValuesSpec::unset(REGISTRY_LEN as nat);
    if list.len() > 0 {
        let shorter = list.drop_last();
        assert forall|i: int| 0 <= i < shorter.len() implies are_one_line(
            #[trigger] shorter[i],
        ) by {
            assert(shorter[i] == list[i]);
        }
        lemma_import(shorter);
        assert(are_one_line(list[list.len() - 1]));
        lemma_lifted(list.last(), cmd_block::model_of(shorter));
        let kept = cmd_block::without_model(list.last());
        let earlier = cmd_block::flag_tokens(shorter);
        if kept.len() > 0 {
            lemma_without_port(kept);
            let values = param_values::read_lines(unset, earlier);
            lemma_read_tokens(values, param_values::without_port(kept));
            param_values::lemma_read_tokens_len(values, param_values::without_port(kept));
            assert(earlier.push(kept).drop_last() =~= earlier);
        }
    }
}

proof fn lemma_all_tokens(list: Seq<Seq<Seq<char>>>)
    requires
        lines_are_one_line(list),
    ensures
        are_one_line(cmd_block::all_tokens(list)),
    decreases list.len(),
{
    if list.len() > 0 {
        let shorter = list.drop_last();
        assert forall|i: int| 0 <= i < shorter.len() implies are_one_line(
            #[trigger] shorter[i],
        ) by {
            assert(shorter[i] == list[i]);
        }
        lemma_all_tokens(shorter);
        assert(are_one_line(list[list.len() - 1]));
        let a = cmd_block::all_tokens(shorter);
        let all = cmd_block::all_tokens(list);
        assert forall|i: int| 0 <= i < all.len() implies is_one_line(#[trigger] all[i]) by {
            if i < a.len() {
                assert(all[i] == a[i]);
            } else {
                assert(all[i] == list.last()[i - a.len()]);
            }
        }
    }
}

/// The parts of a command hold no line feed where its tokens hold none.
proof fn lemma_parts(list: Seq<Seq<Seq<char>>>)
    requires
        lines_are_one_line(list),
    ensures
        is_one_line(cmd_block::invocation(list)),
        lines_are_one_line(cmd_block::arguments(list)),
{
    import_laws::lemma_server_line(list);
    let at = cmd_block::server_line(list);
    if at < list.len() {
        let line = list[at];
        assert(are_one_line(list[at]));
        text::lemma_first_index(line, 0, |token: Seq<char>| cmd_block::is_server(token));
        let n = cmd_block::server_index(line) + 1;
        let head = list.take(at);
        assert forall|i: int| 0 <= i < head.len() implies are_one_line(#[trigger] head[i]) by {
            assert(head[i] == list[i]);
        }
        lemma_all_tokens(head);
        let before = cmd_block::all_tokens(head);
        let all = before + line.take(n);
        assert forall|i: int| 0 <= i < all.len() implies is_one_line(#[trigger] all[i]) by {
            if i < before.len() {
                assert(all[i] == before[i]);
            } else {
                assert(all[i] == line[i - before.len()]);
            }
        }
        lemma_join(all);
        let rest = cmd_block::arguments(list);
        assert forall|i: int| 0 <= i < rest.len() implies are_one_line(#[trigger] rest[i]) by {
            if i == 0 {
                assert forall|k: int| 0 <= k < rest[0].len() implies is_one_line(
                    #[trigger] rest[0][k],
                ) by {
                    assert(rest[0][k] == line[n + k]);
                }
            } else {
                assert(rest[i] == list[at + i]);
            }
        }
    } else {
        reveal_strlit("llama-server");
    }
}

/// Whether a line can be put into a file as it is.
pub open spec fn is_plain_line(line: Seq<char>) -> bool {
    is_one_line(line) && !line_laws::ends_with_return(line)
}

/// A line without a line feed that does not end in white space is plain.
proof fn lemma_plain(line: Seq<char>)
    requires
        is_one_line(line),
        text::trim(line) == line,
    ensures
        is_plain_line(line),
{
    text::lemma_trim_end(text::trim_start(line));
}

proof fn lemma_bare_line(s: Seq<char>)
    requires
        round_trip::is_bare(s),
    ensures
        is_one_line(s),
{
    if s.contains('\n') {
        let i = choose|i: int| 0 <= i < s.len() && s[i] == '\n';
        assert(!text::is_white(s[i]));
    }
}

/// The line of a value is plain.
proof fn lemma_value_line(i: int, value: ValueSpec)
    requires
        0 <= i < REGISTRY_LEN,
        round_trip::value_reads_back(registry_table::flag_table()[i], value),
        match value {
            ValueSpec::Text(t) => is_one_line(t),
            _ => true,
        },
    ensures
        match param_values::value_line(registry_table::flag_table()[i], value) {
            Some(line) => is_plain_line(line),
            None => true,
        },
{
    let def = registry_table::flag_table()[i];
    let flag = def.flag;
    round_trip::lemma_flag(i);
    registry_laws::registry_is_well_formed(i);
    lemma_bare_line(flag);
    lemma_concat(flag, seq![' ']);
    assert(!text::is_white(flag[flag.len() - 1]));
    reveal_strlit(" on");
    reveal_strlit(" off");
    match value {
        ValueSpec::Unset => {},
        ValueSpec::On => {
            lemma_concat(flag, " on"@);
        },
        ValueSpec::Off => {
            lemma_concat(flag, " off"@);
        },
        ValueSpec::Integer(v) => {
            let word = number::decimal_int(v);
            round_trip::lemma_decimal_word(v);
            lemma_bare_line(word);
            lemma_concat(flag + seq![' '], word);
            assert(!text::is_white(word[word.len() - 1]));
        },
        ValueSpec::Choice(k) => {
            let word = (def.kind->0)[k];
            assert(registry_laws::is_plain(word));
            assert forall|j: int| 0 <= j < word.len() implies !text::is_white(#[trigger] word[j])
                && word[j] != '"' && word[j] != '\'' by {
                assert(registry_laws::is_plain_char(word[j]));
            }
            lemma_bare_line(word);
            lemma_concat(flag + seq![' '], word);
            assert(!text::is_white(word[word.len() - 1]));
        },
        ValueSpec::Text(t) => {
            let kept = text::trim(t);
            let word = param_values::shell_word(kept);
            lemma_trim(t);
            text::lemma_trim_end(text::trim_start(t));
            lemma_concat(seq!['"'], kept);
            lemma_concat(seq!['"'] + kept, seq!['"']);
            lemma_concat(seq!['\''], kept);
            lemma_concat(seq!['\''] + kept, seq!['\'']);
            lemma_concat(flag + seq![' '], word);
            assert(!text::is_white(word.last()));
        },
    }
}

proof fn lemma_value_lines(values: ValuesSpec, n: int)
    requires
        round_trip::values_read_back(values),
        values_are_one_line(values),
        0 <= n <= REGISTRY_LEN,
    ensures
        forall|k: int|
            0 <= k < param_values::value_lines(values.values, n).len() ==> is_plain_line(
                #[trigger] param_values::value_lines(values.values, n)[k],
            ),
    decreases n,
{
    if n > 0 {
        lemma_value_lines(values, n - 1);
        let value = values.values[n - 1];
        assert(round_trip::value_reads_back(registry_table::flag_table()[n - 1], value));
        lemma_value_line(n - 1, value);
        let earlier = param_values::value_lines(values.values, n - 1);
        let lines = param_values::value_lines(values.values, n);
        assert forall|k: int| 0 <= k < lines.len() implies is_plain_line(#[trigger] lines[k]) by {
            if k < earlier.len() {
                assert(lines[k] == earlier[k]);
            }
        }
    }
}

proof fn lemma_custom_lines(custom: Seq<Seq<char>>)
    requires
        are_one_line(custom),
    ensures
        forall|k: int|
            0 <= k < param_values::custom_lines(custom).len() ==> is_plain_line(
                #[trigger] param_values::custom_lines(custom)[k],
            ),
    decreases custom.len(),
{
    if custom.len() > 0 {
        let shorter = custom.drop_last();
        assert forall|k: int| 0 <= k < shorter.len() implies is_one_line(#[trigger] shorter[k]) by {
            assert(shorter[k] == custom[k]);
        }
        lemma_custom_lines(shorter);
        assert(is_one_line(custom[custom.len() - 1]));
        lemma_trim(custom.last());
        text::lemma_trim_end(text::trim_start(custom.last()));
        let earlier = param_values::custom_lines(shorter);
        let lines = param_values::custom_lines(custom);
        assert forall|k: int| 0 <= k < lines.len() implies is_plain_line(#[trigger] lines[k]) by {
            if k < earlier.len() {
                assert(lines[k] == earlier[k]);
            }
        }
    }
}

/// The lines of a command that is read back, and whose texts hold no line feed, are
/// plain.
proof fn lemma_body(binary: Seq<char>, model_path: Option<Seq<char>>, values: ValuesSpec)
    requires
        round_trip::invocation_reads_back(binary),
        model_path is Some ==> round_trip::model_reads_back(model_path->0),
        round_trip::values_read_back(values),
        is_one_line(binary),
        model_path is Some ==> is_one_line(model_path->0),
        values_are_one_line(values),
    ensures
        forall|k: int|
            0 <= k < param_builder::body_lines(binary, model_path, values).len() ==> is_plain_line(
                #[trigger] param_builder::body_lines(binary, model_path, values)[k],
            ),
{
    let body = param_builder::body_lines(binary, model_path, values);
    let model = match model_path {
        Some(path) => seq!["-m "@ + path],
        None => Seq::empty(),
    };
    let set = param_values::value_lines(values.values, REGISTRY_LEN as int);
    let custom = param_values::custom_lines(values.custom);
    lemma_value_lines(values, REGISTRY_LEN as int);
    lemma_custom_lines(values.custom);
    assert(is_plain_line(binary)) by {
        let list = cmd_block::tokens(text::trim(binary));
        text::lemma_trim_end(text::trim_start(binary));
        token_laws::tokens_are_line_tokens(text::trim(binary));
        token_laws::joined_tokens_read_back(list);
        lemma_plain(binary);
    }
    match model_path {
        Some(path) => {
            let line = "-m "@ + path;
            reveal_strlit("-m ");
            lemma_concat("-m "@, path);
            text::lemma_trim_end(text::trim_start(line));
            token_laws::tokens_are_line_tokens(text::trim(line));
            let list = cmd_block::tokens(text::trim(line));
            assert(list[1] == path);
            assert(token_laws::is_token(list[1]) && !text::is_white(list[1].last()));
            assert(line.last() == path.last());
            assert(is_plain_line(line));
        },
        None => {},
    }
    reveal_strlit("--port ${PORT}");
    assert(is_plain_line("--port ${PORT}"@));
    let start = 1 + model.len() as int;
    assert forall|k: int| 0 <= k < body.len() implies is_plain_line(#[trigger] body[k]) by {
        if k == 0 {
            assert(body[k] == binary);
        } else if k < start {
            assert(body[k] == model[k - 1]);
        } else if k < start + set.len() {
            assert(body[k] == set[k - start]);
        } else if k < start + set.len() + custom.len() {
            assert(body[k] == custom[k - start - set.len()]);
        } else {
            assert(body[k] == "--port ${PORT}"@);
        }
    }
}

/// The parts of the command of the entry with key `id`, if it has one.
pub open spec fn entry_command(file: Seq<char>, id: Seq<char>) -> Option<
    (Seq<char>, Seq<Seq<Seq<char>>>, Option<Seq<char>>),
> {
    match swap_yaml::span_of_entry(text::lines(file), id) {
        Some((s, e)) => cmd_block::cmd_parts(text::lines(file).subrange(s, e)),
        None => None,
    }
}

/// The line of the file with the first `cmd:` key of the entry with key `id`, and the
/// position behind the block below it.
pub open spec fn command_span(file: Seq<char>, id: Seq<char>) -> Option<(int, int)> {
    let lines = text::lines(file);
    match swap_yaml::span_of_entry(lines, id) {
        Some((s, e)) => {
            let key = cmd_block::cmd_line(lines, (s, e));
            if key < e {
                Some((key, cmd_block::block_end(lines.take(e), key)))
            } else {
                None
            }
        },
        None => None,
    }
}

/// The file with the command of the entry with key `id` replaced, as
/// [`cmd_block::replace_entry_cmd`] does it.
pub open spec fn with_command(file: Seq<char>, id: Seq<char>, body: Seq<Seq<char>>) -> Seq<char> {
    let lines = text::lines(file);
    match swap_yaml::span_of_entry(lines, id) {
        Some(span) => cmd_block::with_block_text(
            file,
            cmd_block::cmd_line(lines, span),
            span.1,
            body,
        ),
        None => file,
    }
}

/// Indented lines are one line each, are not empty, and are plain where the lines are.
proof fn lemma_indented_lines(body: Seq<Seq<char>>, n: nat)
    requires
        are_one_line(body),
        n > 0,
    ensures
        forall|k: int|
            0 <= k < body.len() ==> is_one_line(#[trigger] cmd_block::indented(body, n)[k])
                && cmd_block::indented(body, n)[k].len() > 0 && (is_plain_line(body[k])
                ==> is_plain_line(cmd_block::indented(body, n)[k])),
{
    let part = cmd_block::indented(body, n);
    assert forall|k: int| 0 <= k < body.len() implies is_one_line(#[trigger] part[k])
        && part[k].len() > 0 && (is_plain_line(body[k]) ==> is_plain_line(part[k])) by {
        assert(part[k] == cmd_block::spaces(n) + body[k]);
        assert(is_one_line(body[k]));
        assert(is_one_line(cmd_block::spaces(n))) by {
            if cmd_block::spaces(n).contains('\n') {
                let j = choose|j: int|
                    0 <= j < cmd_block::spaces(n).len() && cmd_block::spaces(n)[j] == '\n';
            }
        }
        lemma_concat(cmd_block::spaces(n), body[k]);
        if body[k].len() > 0 {
            assert(part[k].last() == body[k].last());
        } else {
            assert(part[k].last() == ' ');
        }
    }
}

/// The key line of a command is neither empty nor a top-level key, with or without its
/// carriage return.
proof fn lemma_command_key(file: Seq<char>, id: Seq<char>)
    requires
        command_span(file, id) is Some,
    ensures
        match (swap_yaml::span_of_entry(text::lines(file), id), command_span(file, id)) {
            (Some((s, e)), Some((key, stop))) => {
                let lines = text::lines(file);
                let raw = text::raw_lines(file);
                &&& 0 <= s <= key < stop <= e <= lines.len()
                &&& raw.len() == lines.len()
                &&& raw[key].len() > 0
                &&& reading_laws::reads_alike(raw[key], lines[key])
                &&& reading_laws::reads_alike(text::drop_carriage_return(raw[key]), lines[key])
            },
            _ => false,
        },
{
    let lines = text::lines(file);
    let raw = text::raw_lines(file);
    let (s, e) = swap_yaml::span_of_entry(lines, id)->0;
    let (key, stop) = command_span(file, id)->0;
    let has_key = |line: Seq<char>| cmd_block::has_cmd_key(line);
    line_laws::text_reads_back(file);
    edit_laws::lemma_entry_bounds(lines, id);
    block_laws::lemma_block_splice(lines, id, Seq::empty());
    text::lemma_first_index(lines.take(e), s, has_key);
    assert(has_key(lines.take(e)[key]));
    assert(lines.take(e)[key] == lines[key]);
    assert(!swap_yaml::is_top_level(lines[key]));
    reading_laws::lemma_bare_reads_alike(raw[key]);
    reveal_strlit("cmd:");
    text::lemma_trim_start(lines[key]);
}

/// The lines with a block replaced by `part` can be told apart.
proof fn lemma_replaced_splits(file: Seq<char>, key: int, part: Seq<Seq<char>>, stop: int)
    requires
        0 <= key < stop <= text::raw_lines(file).len(),
        text::raw_lines(file)[key].len() > 0,
        forall|k: int| 0 <= k < part.len() ==> is_one_line(#[trigger] part[k]) && part[k].len() > 0,
    ensures
        line_laws::splits_back(
            edit_laws::spliced(text::raw_lines(file), key + 1, part, stop),
            swap_yaml::is_ended(file),
        ),
{
    let raw = text::raw_lines(file);
    let after = edit_laws::spliced(raw, key + 1, part, stop);
    let d = part.len() - (stop - (key + 1));
    line_laws::text_reads_back(file);
    assert forall|i: int| 0 <= i < after.len() implies !(#[trigger] after[i]).contains('\n') by {
        if i <= key {
            assert(after[i] == raw[i]);
        } else if i < key + 1 + part.len() {
            assert(after[i] == part[i - key - 1]);
            assert(is_one_line(part[i - key - 1]));
        } else {
            assert(after[i] == raw[i - d]);
        }
    }
    if stop < raw.len() {
        assert(after.last() == raw.last());
    } else if part.len() > 0 {
        assert(after.last() == part[part.len() - 1]);
    } else {
        assert(after.last() == raw[key]);
    }
}

/// A kept line behind a block is read as before.
proof fn lemma_tail_is_read(file: Seq<char>, key: int, part: Seq<Seq<char>>, stop: int, i: int)
    requires
        0 <= key < stop <= text::raw_lines(file).len(),
        key + 1 + part.len() <= i < edit_laws::spliced(
            text::raw_lines(file),
            key + 1,
            part,
            stop,
        ).len(),
    ensures
        line_laws::bare_lines(
            edit_laws::spliced(text::raw_lines(file), key + 1, part, stop),
            swap_yaml::is_ended(file),
        )[i] == text::lines(file)[i - part.len() - key - 1 + stop],
{
    let raw = text::raw_lines(file);
    let after = edit_laws::spliced(raw, key + 1, part, stop);
    line_laws::text_reads_back(file);
    assert(after[i] == raw[i - part.len() - key - 1 + stop]);
}

/// The lines of a file with a block replaced say what the lines with the block replaced
/// say.
proof fn lemma_replaced_reads_alike(file: Seq<char>, id: Seq<char>, body: Seq<Seq<char>>)
    requires
        command_span(file, id) is Some,
        are_one_line(body),
    ensures
        match (swap_yaml::span_of_entry(text::lines(file), id), command_span(file, id)) {
            (Some((s, e)), Some((key, stop))) => reading_laws::read_alike(
                text::lines(with_command(file, id, body)),
                cmd_block::with_block(text::lines(file), key, e, body),
            ),
            _ => false,
        },
{
    let lines = text::lines(file);
    let raw = text::raw_lines(file);
    let ended = swap_yaml::is_ended(file);
    let (s, e) = swap_yaml::span_of_entry(lines, id)->0;
    let (key, stop) = command_span(file, id)->0;
    let n = cmd_block::indent_of(lines[key]) + 2;
    let part = cmd_block::indented(body, n);
    let after = edit_laws::spliced(raw, key + 1, part, stop);
    let wanted = cmd_block::with_block(lines, key, e, body);
    lemma_command_key(file, id);
    lemma_indented_lines(body, n);
    block_laws::lemma_block_splice(lines, id, body);
    lemma_replaced_splits(file, key, part, stop);
    line_laws::lines_read_back(after, ended);
    line_laws::text_reads_back(file);
    let read = line_laws::bare_lines(after, ended);
    assert(read.len() == wanted.len());
    assert forall|i: int| 0 <= i < read.len() implies reading_laws::reads_alike(
        read[i],
        #[trigger] wanted[i],
    ) by {
        if i < key {
            assert(after[i] == raw[i]);
            assert(read[i] == lines[i]);
        } else if i == key {
            assert(after[i] == raw[key]);
            assert(wanted[i] == lines[key]);
        } else if i < key + 1 + part.len() {
            assert(after[i] == part[i - key - 1]);
            assert(wanted[i] == part[i - key - 1]);
            assert(edit_laws::is_inner(part[i - key - 1]));
            reading_laws::lemma_bare_reads_alike(part[i - key - 1]);
        } else {
            lemma_tail_is_read(file, key, part, stop, i);
        }
    }
}

/// The lines of a file with a block replaced are the lines with the block replaced, where
/// the block was not empty and the new lines are plain.
proof fn lemma_replaced_reads_back(file: Seq<char>, id: Seq<char>, body: Seq<Seq<char>>)
    requires
        match command_span(file, id) {
            Some((key, stop)) => stop > key + 1,
            None => false,
        },
        body.len() > 0,
        forall|k: int| 0 <= k < body.len() ==> is_plain_line(#[trigger] body[k]),
    ensures
        match (swap_yaml::span_of_entry(text::lines(file), id), command_span(file, id)) {
            (Some((s, e)), Some((key, stop))) => text::lines(with_command(file, id, body))
                == cmd_block::with_block(text::lines(file), key, e, body),
            _ => false,
        },
{
    let lines = text::lines(file);
    let raw = text::raw_lines(file);
    let ended = swap_yaml::is_ended(file);
    let (s, e) = swap_yaml::span_of_entry(lines, id)->0;
    let (key, stop) = command_span(file, id)->0;
    let n = cmd_block::indent_of(lines[key]) + 2;
    let part = cmd_block::indented(body, n);
    let after = edit_laws::spliced(raw, key + 1, part, stop);
    let wanted = cmd_block::with_block(lines, key, e, body);
    assert forall|k: int| 0 <= k < body.len() implies is_one_line(#[trigger] body[k]) by {
        assert(is_plain_line(body[k]));
    }
    lemma_command_key(file, id);
    lemma_indented_lines(body, n);
    lemma_replaced_splits(file, key, part, stop);
    line_laws::lines_read_back(after, ended);
    line_laws::text_reads_back(file);
    let read = line_laws::bare_lines(after, ended);
    assert forall|i: int| 0 <= i < read.len() implies read[i] == #[trigger] wanted[i] by {
        if i <= key {
            assert(after[i] == raw[i]);
            assert(read[i] == lines[i]);
        } else if i < key + 1 + part.len() {
            assert(after[i] == part[i - key - 1]);
            assert(is_plain_line(body[i - key - 1]));
            assert(is_plain_line(part[i - key - 1]));
        } else {
            lemma_tail_is_read(file, key, part, stop, i);
        }
    }
    assert(read =~= wanted);
}

/// The token lines of the entry's block hold no line feed.
proof fn lemma_block_tokens(file: Seq<char>, s: int, e: int, key: int)
    requires
        0 <= s <= e <= text::lines(file).len(),
        0 <= key < e - s,
    ensures
        ({
            let entry = text::lines(file).subrange(s, e);
            let list = cmd_block::block_tokens(entry, key);
            &&& lines_are_one_line(list)
            &&& import_laws::are_block_tokens(list)
        }),
{
    let entry = text::lines(file).subrange(s, e);
    block_laws::lemma_block_end(entry, key);
    let block = entry.subrange(key + 1, cmd_block::block_end(entry, key));
    let list = cmd_block::block_tokens(entry, key);
    line_laws::lines_hold_no_feed(file);
    assert(list =~= block_laws::body_tokens(block));
    import_laws::block_tokens_are_tokens(block);
    assert forall|i: int| 0 <= i < list.len() implies are_one_line(#[trigger] list[i]) by {
        assert(block[i] == text::lines(file)[s + key + 1 + i]);
        lemma_trim(block[i]);
        token_laws::lemma_tokens_chars(text::trim(block[i]), '\n');
        assert(list[i] == cmd_block::tokens(text::trim(block[i])));
    }
}

/// The command of an entry is read from the block below its first `cmd:` line, where that
/// line opens one.
pub proof fn lemma_entry_command(file: Seq<char>, id: Seq<char>)
    requires
        match command_span(file, id) {
            Some((key, stop)) => cmd_block::opens_block(text::lines(file)[key]),
            None => false,
        },
        entry_command(file, id) is Some,
    ensures
        match (swap_yaml::span_of_entry(text::lines(file), id), command_span(file, id)) {
            (Some((s, e)), Some((key, stop))) => stop > key + 1 && entry_command(file, id) == Some(
                cmd_block::command_parts(
                    cmd_block::block_tokens(text::lines(file).subrange(s, e), key - s),
                ),
            ),
            _ => false,
        },
{
    let lines = text::lines(file);
    let (s, e) = swap_yaml::span_of_entry(lines, id)->0;
    let (key, stop) = command_span(file, id)->0;
    let entry = lines.subrange(s, e);
    let opens = |line: Seq<char>| cmd_block::opens_block(line);
    let has_key = |line: Seq<char>| cmd_block::has_cmd_key(line);
    edit_laws::lemma_entry_bounds(lines, id);
    text::lemma_first_index(lines.take(e), s, has_key);
    assert forall|i: int| 0 <= i < key - s implies !opens(#[trigger] entry[i]) by {
        assert(!has_key(lines.take(e)[s + i]));
    }
    assert(entry[key - s] == lines[key]);
    text::lemma_first_index_is(entry, 0, opens, key - s);
    block_laws::lemma_block_end_shift(lines, s, e, key);
}

/// The state that is imported from an entry, saved into that entry and imported again is
/// the same state: invocation, model path, values and custom lines.
///
/// The first `cmd:` line of the entry must open a block, and the invocation, the model
/// path and the texts among the values must be read back as themselves from the command
/// line.
pub proof fn saved_import_reads_back(file: Seq<char>, id: Seq<char>, state: BuilderSpec)
    requires
        state.values.values.len() == REGISTRY_LEN,
        match command_span(file, id) {
            Some((key, stop)) => cmd_block::opens_block(text::lines(file)[key]),
            None => false,
        },
        match entry_command(file, id) {
            Some((binary, lines, model)) => {
                &&& round_trip::invocation_reads_back(binary)
                &&& model is Some ==> round_trip::model_reads_back(model->0)
                &&& import_laws::texts_read_back(state.imported(binary, lines, model).values)
            },
            None => false,
        },
    ensures
        match entry_command(file, id) {
            Some((binary, lines, model)) => {
                let imported = state.imported(binary, lines, model);
                match entry_command(with_command(file, id, imported.body()), id) {
                    Some((binary_again, lines_again, model_again)) => {
                        &&& binary_again == binary
                        &&& model_again == model
                        &&& imported.binary == binary
                        &&& imported.model_path == model
                        &&& state.imported(binary_again, lines_again, model_again) == imported
                    },
                    None => false,
                }
            },
            None => false,
        },
{
    let lines = text::lines(file);
    let (s, e) = swap_yaml::span_of_entry(lines, id)->0;
    let (key, stop) = command_span(file, id)->0;
    let (binary, flags, model) = entry_command(file, id)->0;
    let imported = state.imported(binary, flags, model);
    let body = imported.body();
    let entry = lines.subrange(s, e);
    edit_laws::lemma_entry_bounds(lines, id);
    block_laws::lemma_block_splice(lines, id, body);

    // The block that is replaced is the block that was read.
    lemma_entry_command(file, id);
    let list = cmd_block::block_tokens(entry, key - s);
    lemma_block_tokens(file, s, e, key - s);

    // What is written out is read back.
    lemma_parts(list);
    lemma_import(cmd_block::arguments(list));
    import_laws::imported_command_reads_back(list);
    import_laws::imported_values_read_back(list);
    let values = imported.values;
    assert(body == param_builder::body_lines(binary, model, values));
    lemma_body(binary, model, values);

    // The file keeps its other lines, so that the entry is found again.
    lemma_replaced_reads_back(file, id, body);
    block_laws::replaced_block_is_read(lines, id, body);
}

/// After the command of an entry was replaced, the file reads as before but for that entry.
/// Every new line must be one line.
pub proof fn replaced_file_reads_back(file: Seq<char>, id: Seq<char>, body: Seq<Seq<char>>)
    requires
        command_span(file, id) is Some,
        are_one_line(body),
    ensures
        match swap_yaml::entry_index(swap_yaml::entries_of(file), id, 0) {
            Some(n) => {
                let saved = with_command(file, id, body);
                let entries = swap_yaml::entries_of(file);
                let after = swap_yaml::entries_of(saved);
                &&& 0 <= n < entries.len()
                &&& after.len() == entries.len()
                &&& after[n].id == entries[n].id
                &&& forall|k: int|
                    0 <= k < entries.len() && k != n ==> #[trigger] after[k] == entries[k]
            },
            None => false,
        },
{
    let lines = text::lines(file);
    let (s, e) = swap_yaml::span_of_entry(lines, id)->0;
    let (key, stop) = command_span(file, id)->0;
    edit_laws::lemma_entry_bounds(lines, id);
    block_laws::lemma_block_splice(lines, id, body);
    block_laws::replacing_changes_one_entry(lines, id, body);
    lemma_replaced_reads_alike(file, id, body);
    let after = cmd_block::with_block(lines, key, e, body);
    reading_laws::alike_files_have_the_same_entries(
        text::lines(with_command(file, id, body)),
        after,
        id,
    );
    let part = cmd_block::indented(body, cmd_block::indent_of(lines[key]) + 2);
    edit_laws::other_entries_stay(lines, id, key + 1, part, stop);
}

} // verus!
