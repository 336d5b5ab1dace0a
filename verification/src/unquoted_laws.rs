//! A command without quotes survives import, writing and a second import.

use crate::param_builder;
use crate::param_builder::BuilderSpec;
use crate::param_registry;
use crate::param_registry::{ValueSpec, REGISTRY_LEN};
use crate::param_values;
use crate::param_values::ValuesSpec;
use crate::{block_laws, cmd_block, edit_laws, import_laws, registry_table, round_trip};
use crate::{save_laws, swap_yaml, text, token_laws};
use vstd::prelude::*;

verus! {

/// Whether a text holds no quote.
pub open spec fn is_unquoted(s: Seq<char>) -> bool {
    !s.contains('"') && !s.contains('\'')
}

/// Whether every token is bare.
pub open spec fn are_bare(list: Seq<Seq<char>>) -> bool {
    forall|i: int| 0 <= i < list.len() ==> round_trip::is_bare(#[trigger] list[i])
}

/// Whether every token of the lines is bare.
pub open spec fn lines_are_bare(list: Seq<Seq<Seq<char>>>) -> bool {
    forall|i: int| 0 <= i < list.len() ==> are_bare(#[trigger] list[i])
}

/// Whether no text among the values is empty or sets the port.
pub open spec fn texts_can_be_written(values: ValuesSpec) -> bool {
    forall|i: int|
        0 <= i < values.values.len() ==> (match #[trigger] values.values[i] {
            ValueSpec::Text(t) => t.len() > 0 && !param_values::is_port_flag(t)
                && !param_values::is_port_setting(t),
            _ => true,
        })
}

/// Whether every text among the values is bare or empty.
spec fn texts_are_bare(values: ValuesSpec) -> bool {
    forall|i: int|
        0 <= i < values.values.len() ==> (match #[trigger] values.values[i] {
            ValueSpec::Text(t) => t.len() == 0 || round_trip::is_bare(t),
            _ => true,
        })
}

/// Without quotes, a token ends at the first white space.
proof fn lemma_unquoted_len(s: Seq<char>)
    requires
        is_unquoted(s),
    ensures
        cmd_block::token_len(s, None) == text::word_len(s),
    decreases s.len(),
{
    if s.len() > 0 && !text::is_white(s[0]) {
        let rest = s.drop_first();
        assert(s.contains(s[0]));
        assert(is_unquoted(rest)) by {
            if rest.contains('"') {
                let i = choose|i: int| 0 <= i < rest.len() && rest[i] == '"';
                assert(s[i + 1] == '"');
            }
            if rest.contains('\'') {
                let i = choose|i: int| 0 <= i < rest.len() && rest[i] == '\'';
                assert(s[i + 1] == '\'');
            }
        }
        lemma_unquoted_len(rest);
    }
}

/// A part of a text without quotes holds none.
proof fn lemma_unquoted_part(s: Seq<char>, from: int, to: int)
    requires
        is_unquoted(s),
        0 <= from <= to <= s.len(),
    ensures
        is_unquoted(s.subrange(from, to)),
{
    let part = s.subrange(from, to);
    assert forall|i: int| 0 <= i < part.len() implies part[i] != '"' && part[i] != '\'' by {
        assert(s.contains(s[from + i]));
    }
}

/// The tokens of a line without quotes are bare.
pub proof fn unquoted_tokens_are_bare(s: Seq<char>)
    requires
        is_unquoted(s),
    ensures
        are_bare(cmd_block::tokens(s)),
    decreases s.len(),
{
    let rest = text::trim_start(s);
    text::lemma_trim_start(s);
    if rest.len() > 0 {
        let n = cmd_block::token_len(rest, None) as int;
        let first = rest.take(n);
        let tail = rest.skip(n);
        lemma_unquoted_part(s, s.len() - rest.len(), s.len() as int);
        assert(s.subrange(s.len() - rest.len(), s.len() as int) =~= rest);
        lemma_unquoted_len(rest);
        text::lemma_word_len(rest);
        lemma_unquoted_part(rest, n, rest.len() as int);
        assert(rest.subrange(n, rest.len() as int) =~= tail);
        assert(n > 0);
        assert forall|k: int| 0 <= k < first.len() implies !text::is_white(#[trigger] first[k])
            && first[k] != '"' && first[k] != '\'' by {
            assert(first[k] == rest[k]);
            assert(rest.contains(rest[k]));
        }
        unquoted_tokens_are_bare(tail);
        let list = cmd_block::tokens(s);
        assert forall|i: int| 0 <= i < list.len() implies round_trip::is_bare(
            #[trigger] list[i],
        ) by {
            if i > 0 {
                assert(list[i] == cmd_block::tokens(tail)[i - 1]);
            }
        }
    }
}

proof fn lemma_part(list: Seq<Seq<char>>, from: int, to: int)
    requires
        are_bare(list),
        0 <= from <= to <= list.len(),
    ensures
        are_bare(list.subrange(from, to)),
{
    let part = list.subrange(from, to);
    assert forall|i: int| 0 <= i < part.len() implies round_trip::is_bare(#[trigger] part[i]) by {
        assert(part[i] == list[from + i]);
    }
}

proof fn lemma_skip(list: Seq<Seq<char>>, n: int)
    requires
        are_bare(list),
        0 <= n <= list.len(),
    ensures
        are_bare(list.skip(n)),
{
    lemma_part(list, n, list.len() as int);
    assert(list.subrange(n, list.len() as int) =~= list.skip(n));
}

proof fn lemma_front(token: Seq<char>, others: Seq<Seq<char>>)
    requires
        round_trip::is_bare(token),
        are_bare(others),
    ensures
        are_bare(seq![token] + others),
{
    let list = seq![token] + others;
    assert forall|i: int| 0 <= i < list.len() implies round_trip::is_bare(#[trigger] list[i]) by {
        if i > 0 {
            assert(list[i] == others[i - 1]);
        }
    }
}

/// Bare tokens are tokens of a line.
pub proof fn lemma_bare_are_tokens(list: Seq<Seq<char>>)
    requires
        are_bare(list),
    ensures
        token_laws::are_line_tokens(list),
{
    assert forall|i: int| 0 <= i < list.len() implies token_laws::is_token(#[trigger] list[i])
        && !text::is_white(list[i].last()) by {
        round_trip::lemma_bare_token(list[i]);
    }
    assert forall|i: int| 0 <= i < list.len() - 1 implies token_laws::is_closed(
        #[trigger] list[i],
    ) by {
        round_trip::lemma_bare_token(list[i]);
    }
}

/// A value that is stored for a bare or empty token is no text, or that token.
proof fn lemma_stored(values: ValuesSpec, i: int, token: Seq<char>)
    requires
        texts_are_bare(values),
        0 <= i < values.values.len(),
        token.len() == 0 || round_trip::is_bare(token),
    ensures
        match param_registry::value_of_token(registry_table::flag_table()[i].kind, token) {
            Some(v) => texts_are_bare(values.with_value(i, v)),
            None => true,
        },
{
    match param_registry::value_of_token(registry_table::flag_table()[i].kind, token) {
        Some(v) => {
            let more = values.with_value(i, v);
            assert forall|k: int| 0 <= k < more.values.len() implies (match #[trigger] more.values[k] {
                ValueSpec::Text(t) => t.len() == 0 || round_trip::is_bare(t),
                _ => true,
            }) by {
                if k != i {
                    assert(more.values[k] == values.values[k]);
                }
            }
        },
        None => {},
    }
}

proof fn lemma_switched_on(values: ValuesSpec, i: int)
    requires
        texts_are_bare(values),
        0 <= i < values.values.len(),
    ensures
        texts_are_bare(values.with_value(i, ValueSpec::On)),
{
    let on = values.with_value(i, ValueSpec::On);
    assert forall|k: int| 0 <= k < on.values.len() implies (match #[trigger] on.values[k] {
        ValueSpec::Text(t) => t.len() == 0 || round_trip::is_bare(t),
        _ => true,
    }) by {
        if k != i {
            assert(on.values[k] == values.values[k]);
        }
    }
}

/// The value behind the sign of equality of a bare token is bare or empty.
proof fn lemma_assigned(token: Seq<char>)
    requires
        round_trip::is_bare(token),
    ensures
        match text::split_once(token, '=') {
            Some((name, value)) => (value.len() == 0 || round_trip::is_bare(value))
                && cmd_block::without_quotes(value) == value,
            None => true,
        },
{
    text::lemma_before(token, '=');
    match text::split_once(token, '=') {
        Some((name, value)) => {
            let n = token.len() - value.len();
            assert(value =~= token.skip(n));
            if value.len() > 0 {
                assert forall|k: int| 0 <= k < value.len() implies !text::is_white(
                    #[trigger] value[k],
                ) && value[k] != '"' && value[k] != '\'' by {
                    assert(value[k] == token[n + k]);
                }
                round_trip::lemma_bare_token(value);
            }
        },
        None => {},
    }
}

/// Reading bare tokens leaves bare or empty texts among the values.
proof fn lemma_read_tokens(values: ValuesSpec, list: Seq<Seq<char>>)
    requires
        values.values.len() >= REGISTRY_LEN,
        texts_are_bare(values),
        are_bare(list),
    ensures
        texts_are_bare(param_values::read_tokens(values, list)),
    decreases list.len(),
{
    if list.len() > 0 && param_values::is_flag(list[0]) {
        let token = list[0];
        let rest = list.drop_first();
        lemma_skip(list, 1);
        assert(list.skip(1) =~= rest);
        lemma_assigned(token);
        param_registry::lemma_find_flag_from(token, 0);
        match text::split_once(token, '=') {
            Some((name, value)) => {
                param_registry::lemma_find_flag_from(name, 0);
                match param_registry::find_flag(name) {
                    Some(i) => {
                        lemma_stored(values, i, value);
                    },
                    None => {},
                }
                lemma_read_tokens(
                    param_values::read_assignment(values, token, name, value),
                    rest,
                );
            },
            None => match param_registry::find_flag(token) {
                None => {
                    let n = param_values::next_flag(list, 1);
                    param_values::lemma_next_flag(list, 1);
                    lemma_skip(list, n);
                    lemma_read_tokens(
                        values.with_custom(text::join(list.take(n), seq![' '])),
                        list.skip(n),
                    );
                },
                Some(i) => {
                    lemma_switched_on(values, i);
                    lemma_read_tokens(values.with_value(i, ValueSpec::On), rest);
                    if rest.len() > 0 {
                        let word = rest[0];
                        lemma_skip(rest, 1);
                        assert(rest.skip(1) =~= rest.drop_first());
                        round_trip::lemma_bare_token(word);
                        lemma_stored(values, i, word);
                        match param_registry::value_of_token(
                            registry_table::flag_table()[i].kind,
                            word,
                        ) {
                            Some(v) => {
                                lemma_read_tokens(values.with_value(i, v), rest.drop_first());
                            },
                            None => {
                                lemma_read_tokens(
                                    values.with_custom(token + seq![' '] + word),
                                    rest.drop_first(),
                                );
                            },
                        }
                    }
                },
            },
        }
    }
}

/// Lifting the model path out of bare tokens leaves bare tokens and a bare path.
proof fn lemma_lifted(list: Seq<Seq<char>>, found: Option<Seq<char>>)
    requires
        are_bare(list),
        found is Some ==> round_trip::is_bare(found->0),
    ensures
        are_bare(cmd_block::without_model(list)),
        cmd_block::last_model(list, found) is Some ==> round_trip::is_bare(
            cmd_block::last_model(list, found)->0,
        ),
    decreases list.len(),
{
    if list.len() > 0 {
        lemma_skip(list, 1);
        assert(list.skip(1) =~= list.drop_first());
        if list.len() >= 2 && swap_yaml::is_model_flag(list[0]) {
            round_trip::lemma_bare_token(list[1]);
            lemma_skip(list, 2);
            lemma_lifted(list.skip(2), Some(list[1]));
        } else {
            lemma_lifted(list.drop_first(), found);
            lemma_front(list[0], cmd_block::without_model(list.drop_first()));
        }
    }
}

proof fn lemma_without_port(list: Seq<Seq<char>>)
    requires
        are_bare(list),
    ensures
        are_bare(param_values::without_port(list)),
    decreases list.len(),
{
    if list.len() > 0 {
        lemma_skip(list, 1);
        assert(list.skip(1) =~= list.drop_first());
        lemma_without_port(list.drop_first());
        lemma_front(list[0], param_values::without_port(list.drop_first()));
        if list.len() >= 2 {
            lemma_skip(list, 2);
            lemma_without_port(list.skip(2));
        }
    }
}

/// Importing bare tokens gives bare or empty texts and a bare model path.
proof fn lemma_import(list: Seq<Seq<Seq<char>>>)
    requires
        lines_are_bare(list),
    ensures
        ({
            let values = param_values::read_lines(
                ValuesSpec::unset(REGISTRY_LEN as nat),
                cmd_block::flag_tokens(list),
            );
            &&& values.values.len() == REGISTRY_LEN
            &&& texts_are_bare(values)
        }),
        cmd_block::model_of(list) is Some ==> round_trip::is_bare(cmd_block::model_of(list)->0),
    decreases list.len(),
{
    let unset = ValuesSpec::unset(REGISTRY_LEN as nat);
    if list.len() > 0 {
        let shorter = list.drop_last();
        assert forall|i: int| 0 <= i < shorter.len() implies are_bare(#[trigger] shorter[i]) by {
            assert(shorter[i] == list[i]);
        }
        lemma_import(shorter);
        assert(are_bare(list[list.len() - 1]));
        lemma_lifted(list.last(), cmd_block::model_of(shorter));
        let kept = cmd_block::without_model(list.last());
        let earlier = cmd_block::flag_tokens(shorter);
        if kept.len() > 0 {
            lemma_without_port(kept);
            let values = param_values::read_lines(unset, earlier);
            lemma_read_tokens(values, param_values::without_port(kept));
            param_values::lemma_read_tokens_len(values, param_values::without_port(kept));
            assert(earlier.push(kept).drop_last() =~= earlier);
        }
    }
}

proof fn lemma_all_tokens(list: Seq<Seq<Seq<char>>>)
    requires
        lines_are_bare(list),
    ensures
        are_bare(cmd_block::all_tokens(list)),
    decreases list.len(),
{
    if list.len() > 0 {
        let shorter = list.drop_last();
        assert forall|i: int| 0 <= i < shorter.len() implies are_bare(#[trigger] shorter[i]) by {
            assert(shorter[i] == list[i]);
        }
        lemma_all_tokens(shorter);
        assert(are_bare(list[list.len() - 1]));
        let earlier = cmd_block::all_tokens(shorter);
        let all = cmd_block::all_tokens(list);
        assert forall|i: int| 0 <= i < all.len() implies round_trip::is_bare(#[trigger] all[i]) by {
            if i < earlier.len() {
                assert(all[i] == earlier[i]);
            } else {
                assert(all[i] == list.last()[i - earlier.len()]);
            }
        }
    }
}

/// The invocation and the arguments of a command of bare tokens.
proof fn lemma_invocation(list: Seq<Seq<Seq<char>>>)
    requires
        lines_are_bare(list),
    ensures
        round_trip::invocation_reads_back(cmd_block::invocation(list)),
        lines_are_bare(cmd_block::arguments(list)),
{
    import_laws::lemma_server_line(list);
    let at = cmd_block::server_line(list);
    if at < list.len() {
        let line = list[at];
        assert(are_bare(list[at]));
        text::lemma_first_index(line, 0, |token: Seq<char>| cmd_block::is_server(token));
        let n = cmd_block::server_index(line) + 1;
        let head = list.take(at);
        assert forall|i: int| 0 <= i < head.len() implies are_bare(#[trigger] head[i]) by {
            assert(head[i] == list[i]);
        }
        lemma_all_tokens(head);
        let earlier = cmd_block::all_tokens(head);
        let all = import_laws::invocation_tokens(list);
        assert forall|i: int| 0 <= i < all.len() implies round_trip::is_bare(#[trigger] all[i]) by {
            if i < earlier.len() {
                assert(all[i] == earlier[i]);
            } else {
                assert(all[i] == line[i - earlier.len()]);
            }
        }
        lemma_bare_are_tokens(all);
        lemma_skip(line, n);
        let rest = cmd_block::arguments(list);
        assert forall|i: int| 0 <= i < rest.len() implies are_bare(#[trigger] rest[i]) by {
            if i > 0 {
                assert(rest[i] == list[at + i]);
            }
        }
    }
    import_laws::closed_invocation_reads_back(list);
}

/// A bare model path is read back as itself.
proof fn lemma_bare_model(path: Seq<char>)
    requires
        round_trip::is_bare(path),
    ensures
        round_trip::model_reads_back(path),
{
    reveal_strlit("-m");
    reveal_strlit("-m ");
    assert(round_trip::is_bare("-m"@));
    round_trip::lemma_bare_token(path);
    round_trip::lemma_pair_reads("-m"@, path);
    assert("-m "@ + path =~= "-m"@ + seq![' '] + path);
}

/// What a command of bare tokens needs to be read back: that no text among its values is
/// empty or sets the port.
pub proof fn bare_command_reads_back(list: Seq<Seq<Seq<char>>>)
    requires
        lines_are_bare(list),
        texts_can_be_written(
            param_values::read_lines(
                ValuesSpec::unset(REGISTRY_LEN as nat),
                cmd_block::command_parts(list).1,
            ),
        ),
    ensures
        import_laws::are_block_tokens(list),
        round_trip::invocation_reads_back(cmd_block::command_parts(list).0),
        cmd_block::command_parts(list).2 is Some ==> round_trip::model_reads_back(
            cmd_block::command_parts(list).2->0,
        ),
        import_laws::texts_read_back(
            param_values::read_lines(
                ValuesSpec::unset(REGISTRY_LEN as nat),
                cmd_block::command_parts(list).1,
            ),
        ),
{
    let parts = cmd_block::command_parts(list);
    let values = param_values::read_lines(ValuesSpec::unset(REGISTRY_LEN as nat), parts.1);
    assert forall|i: int| 0 <= i < list.len() implies token_laws::are_line_tokens(
        #[trigger] list[i],
    ) by {
        assert(are_bare(list[i]));
        lemma_bare_are_tokens(list[i]);
    }
    lemma_invocation(list);
    lemma_import(cmd_block::arguments(list));
    if parts.2 is Some {
        lemma_bare_model(parts.2->0);
    }
    assert forall|i: int| 0 <= i < values.values.len() implies (match #[trigger] values.values[i] {
        ValueSpec::Text(t) => round_trip::word_reads_back(t),
        _ => true,
    }) by {
        match values.values[i] {
            ValueSpec::Text(t) => {
                round_trip::bare_text_reads_back(t);
            },
            _ => {},
        }
    }
}

/// The tokens of a block without quotes are bare.
proof fn lemma_block_is_bare(lines: Seq<Seq<char>>)
    requires
        forall|i: int| 0 <= i < lines.len() ==> is_unquoted(#[trigger] lines[i]),
    ensures
        lines_are_bare(block_laws::body_tokens(lines)),
{
    let list = block_laws::body_tokens(lines);
    assert forall|i: int| 0 <= i < list.len() implies are_bare(#[trigger] list[i]) by {
        let line = lines[i];
        let kept = text::trim_start(line);
        text::lemma_trim_start(line);
        text::lemma_trim_end(kept);
        lemma_unquoted_part(line, line.len() - kept.len(), line.len() as int);
        assert(line.subrange(line.len() - kept.len(), line.len() as int) =~= kept);
        lemma_unquoted_part(kept, 0, text::trim(line).len() as int);
        assert(kept.subrange(0, text::trim(line).len() as int) =~= text::trim(line));
        unquoted_tokens_are_bare(text::trim(line));
    }
}

/// A command that is written below a `cmd:` key, indented by two, is read as that command.
pub proof fn written_block_is_read(body: Seq<Seq<char>>)
    requires
        body.len() > 0,
        !cmd_block::is_blank(body.last()),
    ensures
        cmd_block::cmd_parts(seq!["cmd: |"@] + cmd_block::indented(body, 2)) == Some(
            cmd_block::command_parts(block_laws::body_tokens(body)),
        ),
{
    let part = cmd_block::indented(body, 2);
    let lines = seq!["cmd: |"@] + part;
    let n = lines.len() as int;
    reveal_strlit("cmd: |");
    reveal_strlit("cmd:");
    let key = "cmd: |"@;
    assert(text::trim_start(key) == key);
    assert(key.take(4) =~= "cmd:"@);
    let value = key.skip(4);
    assert(value.drop_first() =~= seq!['|']);
    assert(text::trim_start(value) == value.drop_first()) by {
        reveal_with_fuel(text::trim_start, 2);
    }
    assert(text::trim_end(seq!['|']) == seq!['|']);
    assert(cmd_block::opens_block(lines[0]));
    text::lemma_first_index_is(lines, 0, |line: Seq<char>| cmd_block::opens_block(line), 0);
    let indent = cmd_block::indent_of(key);
    assert(key.take(0) =~= Seq::<char>::empty());
    assert(indent == 0);
    let ends = |line: Seq<char>| cmd_block::ends_block(line, indent);
    assert forall|i: int| 1 <= i < n implies !ends(#[trigger] lines[i]) by {
        assert(lines[i] == cmd_block::spaces(2) + body[i - 1]);
        block_laws::lemma_indented_line(2, body[i - 1]);
    }
    text::lemma_first_index_is(lines, 1, ends, n);
    assert(lines[n - 1] == cmd_block::spaces(2) + body.last());
    block_laws::lemma_indented_line(2, body.last());
    cmd_block::lemma_blank_tail(lines, 1, n, n);
    assert(cmd_block::block_end(lines, 0) == n);
    let list = cmd_block::block_tokens(lines, 0);
    let wanted = block_laws::body_tokens(body);
    assert forall|i: int| 0 <= i < wanted.len() implies list[i] == #[trigger] wanted[i] by {
        assert(lines.subrange(1, n)[i] == cmd_block::spaces(2) + body[i]);
        block_laws::lemma_indented_line(2, body[i]);
    }
    assert(list =~= wanted);
}

/// A command block without quotes that is imported, written out below a `cmd:` key and
/// imported again gives the same values, invocation and model path, unless a text among the
/// values is empty or sets the port.
pub proof fn unquoted_import_reads_back(
    block: Seq<Seq<char>>,
    state: BuilderSpec,
    later: BuilderSpec,
)
    requires
        forall|i: int| 0 <= i < block.len() ==> is_unquoted(#[trigger] block[i]),
        state.values.values.len() == REGISTRY_LEN,
        later.values.values.len() == REGISTRY_LEN,
        match cmd_block::cmd_parts(block) {
            Some((binary, lines, model)) => texts_can_be_written(
                state.imported(binary, lines, model).values,
            ),
            None => false,
        },
    ensures
        match cmd_block::cmd_parts(block) {
            Some((binary, lines, model)) => {
                let imported = state.imported(binary, lines, model);
                let written = seq!["cmd: |"@] + cmd_block::indented(imported.body(), 2);
                match cmd_block::cmd_parts(written) {
                    Some((binary_again, lines_again, model_again)) => {
                        let again = later.imported(binary_again, lines_again, model_again);
                        &&& again.values == imported.values
                        &&& again.binary == imported.binary
                        &&& again.model_path == imported.model_path
                    },
                    None => false,
                }
            },
            None => false,
        },
{
    let opens = |line: Seq<char>| cmd_block::opens_block(line);
    let key = text::first_index(block, 0, opens);
    text::lemma_first_index(block, 0, opens);
    let stop = cmd_block::block_end(block, key);
    block_laws::lemma_block_end(block, key);
    let lines = block.subrange(key + 1, stop);
    let list = cmd_block::block_tokens(block, key);
    assert(list =~= block_laws::body_tokens(lines));
    assert forall|i: int| 0 <= i < lines.len() implies is_unquoted(#[trigger] lines[i]) by {
        assert(lines[i] == block[key + 1 + i]);
    }
    lemma_block_is_bare(lines);
    bare_command_reads_back(list);
    import_laws::imported_command_reads_back(list);
    let (binary, flags, model) = cmd_block::command_parts(list);
    let imported = state.imported(binary, flags, model);
    assert(imported.body() == param_builder::body_lines(binary, model, imported.values));
    written_block_is_read(imported.body());
}

/// The state that is imported from an entry whose block holds no quotes, saved into that
/// entry and imported again is the same state, unless a text among the values is empty or
/// sets the port. The first `cmd:` line of the entry must open a block.
pub proof fn saved_unquoted_import_reads_back(file: Seq<char>, id: Seq<char>, state: BuilderSpec)
    requires
        state.values.values.len() == REGISTRY_LEN,
        match save_laws::command_span(file, id) {
            Some((key, stop)) => cmd_block::opens_block(text::lines(file)[key]) && forall|i: int|
                key < i < stop ==> is_unquoted(#[trigger] text::lines(file)[i]),
            None => false,
        },
        match save_laws::entry_command(file, id) {
            Some((binary, lines, model)) => texts_can_be_written(
                state.imported(binary, lines, model).values,
            ),
            None => false,
        },
    ensures
        match save_laws::entry_command(file, id) {
            Some((binary, lines, model)) => {
                let imported = state.imported(binary, lines, model);
                match save_laws::entry_command(
                    save_laws::with_command(file, id, imported.body()),
                    id,
                ) {
                    Some((binary_again, lines_again, model_again)) => {
                        &&& binary_again == binary
                        &&& model_again == model
                        &&& state.imported(binary_again, lines_again, model_again) == imported
                    },
                    None => false,
                }
            },
            None => false,
        },
{
    let lines = text::lines(file);
    let (s, e) = swap_yaml::span_of_entry(lines, id)->0;
    let (key, stop) = save_laws::command_span(file, id)->0;
    let entry = lines.subrange(s, e);
    edit_laws::lemma_entry_bounds(lines, id);
    block_laws::lemma_block_splice(lines, id, Seq::empty());
    save_laws::lemma_entry_command(file, id);
    block_laws::lemma_block_end_shift(lines, s, e, key);
    let block = entry.subrange(key - s + 1, stop - s);
    let list = cmd_block::block_tokens(entry, key - s);
    assert(list =~= block_laws::body_tokens(block));
    assert forall|i: int| 0 <= i < block.len() implies is_unquoted(#[trigger] block[i]) by {
        assert(block[i] == lines[key + 1 + i]);
    }
    lemma_block_is_bare(block);
    bare_command_reads_back(list);
    save_laws::saved_import_reads_back(file, id, state);
}

} // verus!
