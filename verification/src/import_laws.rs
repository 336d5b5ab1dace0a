//! A command block that was imported, written out again and read again gives the same
//! state.

use crate::param_registry;
use crate::param_registry::{ValueSpec, REGISTRY_LEN};
use crate::param_values;
use crate::param_values::ValuesSpec;
use crate::{block_laws, cmd_block, param_builder, registry_table, round_trip, swap_yaml};
use crate::{text, token_laws};
use vstd::prelude::*;

verus! {

/// Whether every value fits its flag, and every custom line is read back as itself.
pub open spec fn is_imported(values: ValuesSpec) -> bool {
    &&& values.values.len() == REGISTRY_LEN
    &&& forall|i: int|
        0 <= i < REGISTRY_LEN ==> round_trip::value_fits(
            registry_table::flag_table()[i],
            #[trigger] values.values[i],
        )
    &&& forall|k: int|
        0 <= k < values.custom.len() ==> round_trip::custom_reads_back(
            #[trigger] values.custom[k],
        )
}

/// Whether every text among the values is read back as itself.
pub open spec fn texts_read_back(values: ValuesSpec) -> bool {
    forall|i: int|
        0 <= i < values.values.len() ==> (match #[trigger] values.values[i] {
            ValueSpec::Text(t) => round_trip::word_reads_back(t),
            _ => true,
        })
}

/// Whether these can be the token lines of a block.
pub open spec fn are_block_tokens(list: Seq<Seq<Seq<char>>>) -> bool {
    forall|i: int| 0 <= i < list.len() ==> token_laws::are_line_tokens(#[trigger] list[i])
}

/// Whether these can be the flag tokens of a line after the model path and the port were
/// taken out.
spec fn are_flag_tokens(list: Seq<Seq<char>>) -> bool {
    token_laws::are_line_tokens(list) && round_trip::keeps_model(list) && round_trip::keeps_port(
        list,
    )
}

proof fn lemma_part(list: Seq<Seq<char>>, from: int, to: int)
    requires
        0 <= from <= to <= list.len(),
        are_flag_tokens(list),
    ensures
        are_flag_tokens(list.subrange(from, to)),
{
    let part = list.subrange(from, to);
    assert forall|i: int| 0 <= i < part.len() implies token_laws::is_token(#[trigger] part[i])
        && !text::is_white(part[i].last()) by {
        assert(part[i] == list[from + i]);
    }
    assert forall|i: int| 0 <= i < part.len() - 1 implies token_laws::is_closed(
        #[trigger] part[i],
    ) by {
        assert(part[i] == list[from + i]);
    }
    assert forall|i: int| 0 <= i < part.len() - 1 implies !swap_yaml::is_model_flag(
        #[trigger] part[i],
    ) by {
        assert(part[i] == list[from + i]);
    }
    assert forall|i: int| 0 <= i < part.len() implies !param_values::is_port_flag(
        #[trigger] part[i],
    ) && !param_values::is_port_setting(part[i]) by {
        assert(part[i] == list[from + i]);
    }
}

/// Tokens that are kept together as one custom line are read back as that line.
proof fn lemma_custom(values: ValuesSpec, list: Seq<Seq<char>>)
    requires
        is_imported(values),
        are_flag_tokens(list),
        list.len() > 0,
        round_trip::is_custom_line(list),
    ensures
        is_imported(values.with_custom(text::join(list, seq![' ']))),
{
    token_laws::joined_tokens_read_back(list);
    let line = text::join(list, seq![' ']);
    assert(round_trip::custom_reads_back(line));
    let more = values.with_custom(line);
    assert forall|k: int| 0 <= k < more.custom.len() implies round_trip::custom_reads_back(
        #[trigger] more.custom[k],
    ) by {
        if k < values.custom.len() {
            assert(more.custom[k] == values.custom[k]);
        }
    }
}

/// A value that a token stands for fits its flag.
proof fn lemma_stored(values: ValuesSpec, i: int, token: Seq<char>)
    requires
        is_imported(values),
        0 <= i < REGISTRY_LEN,
    ensures
        match param_registry::value_of_token(registry_table::flag_table()[i].kind, token) {
            Some(v) => is_imported(values.with_value(i, v)),
            None => true,
        },
{
    let def = registry_table::flag_table()[i];
    match param_registry::value_of_token(def.kind, token) {
        Some(v) => {
            match def.kind {
                param_registry::KindSpec::Choice(options) => {
                    param_registry::lemma_option_index(options, token);
                },
                _ => {},
            }
            assert(round_trip::value_fits(def, v));
            let more = values.with_value(i, v);
            assert forall|k: int| 0 <= k < REGISTRY_LEN implies round_trip::value_fits(
                registry_table::flag_table()[k],
                #[trigger] more.values[k],
            ) by {
                if k != i {
                    assert(more.values[k] == values.values[k]);
                }
            }
            assert forall|k: int| 0 <= k < more.custom.len() implies round_trip::custom_reads_back(
                #[trigger] more.custom[k],
            ) by {
                assert(more.custom[k] == values.custom[k]);
            }
        },
        None => {},
    }
}

proof fn lemma_switched_on(values: ValuesSpec, i: int)
    requires
        is_imported(values),
        0 <= i < REGISTRY_LEN,
        registry_table::flag_table()[i].kind is Toggle,
    ensures
        is_imported(values.with_value(i, ValueSpec::On)),
{
    let more = values.with_value(i, ValueSpec::On);
    assert forall|k: int| 0 <= k < REGISTRY_LEN implies round_trip::value_fits(
        registry_table::flag_table()[k],
        #[trigger] more.values[k],
    ) by {
        if k != i {
            assert(more.values[k] == values.values[k]);
        }
    }
    assert forall|k: int| 0 <= k < more.custom.len() implies round_trip::custom_reads_back(
        #[trigger] more.custom[k],
    ) by {
        assert(more.custom[k] == values.custom[k]);
    }
}

/// The tokens up to the next flag reach up to their own next flag.
proof fn lemma_run(list: Seq<Seq<char>>)
    requires
        list.len() > 0,
    ensures
        1 <= param_values::next_flag(list, 1) <= list.len(),
        param_values::next_flag(list.take(param_values::next_flag(list, 1)), 1)
            == param_values::next_flag(list, 1),
{
    let n = param_values::next_flag(list, 1);
    let run = list.take(n);
    param_values::lemma_next_flag(list, 1);
    assert forall|i: int| 1 <= i < n implies !param_values::ends_values(#[trigger] run[i]) by {
        assert(run[i] == list[i]);
    }
    text::lemma_first_index_is(run, 1, |token: Seq<char>| param_values::ends_values(token), n);
}

/// Reading the tokens of a line keeps what holds of imported values.
proof fn lemma_read_tokens(values: ValuesSpec, list: Seq<Seq<char>>)
    requires
        is_imported(values),
        are_flag_tokens(list),
    ensures
        is_imported(param_values::read_tokens(values, list)),
    decreases list.len(),
{
    if list.len() > 0 {
        let token = list[0];
        let rest = list.drop_first();
        let single = list.take(1);
        lemma_part(list, 0, 1);
        lemma_part(list, 1, list.len() as int);
        assert(list.subrange(0, 1) =~= single);
        assert(list.subrange(1, list.len() as int) =~= rest);
        assert(text::join(single, seq![' ']) == token);
        param_registry::lemma_find_flag_from(token, 0);
        if !param_values::is_flag(token) {
            lemma_custom(values, list);
        } else {
            match text::split_once(token, '=') {
                Some((name, value)) => {
                    param_registry::lemma_find_flag_from(name, 0);
                    let next = param_values::read_assignment(values, token, name, value);
                    assert(is_imported(next)) by {
                        match param_registry::find_flag(name) {
                            Some(i) => {
                                lemma_stored(values, i, cmd_block::without_quotes(value));
                                if param_registry::value_of_token(
                                    registry_table::flag_table()[i].kind,
                                    cmd_block::without_quotes(value),
                                ) is None {
                                    lemma_custom(values, single);
                                }
                            },
                            None => {
                                lemma_custom(values, single);
                            },
                        }
                    }
                    lemma_read_tokens(next, rest);
                },
                None => match param_registry::find_flag(token) {
                    None => {
                        let n = param_values::next_flag(list, 1);
                        let run = list.take(n);
                        lemma_run(list);
                        lemma_part(list, 0, n);
                        lemma_part(list, n, list.len() as int);
                        assert(list.subrange(0, n) =~= run);
                        assert(list.subrange(n, list.len() as int) =~= list.skip(n));
                        lemma_custom(values, run);
                        lemma_read_tokens(
                            values.with_custom(text::join(run, seq![' '])),
                            list.skip(n),
                        );
                    },
                    Some(i) => {
                        let kind = registry_table::flag_table()[i].kind;
                        if kind is Toggle {
                            lemma_switched_on(values, i);
                            lemma_read_tokens(values.with_value(i, ValueSpec::On), rest);
                        } else if rest.len() == 0 {
                            lemma_custom(values, single);
                        } else {
                            let word = rest[0];
                            let tail = rest.drop_first();
                            let pair = list.take(2);
                            lemma_part(list, 0, 2);
                            lemma_part(list, 2, list.len() as int);
                            assert(list.subrange(0, 2) =~= pair);
                            assert(list.subrange(2, list.len() as int) =~= tail);
                            lemma_stored(values, i, cmd_block::without_quotes(word));
                            match param_registry::value_of_token(
                                kind,
                                cmd_block::without_quotes(word),
                            ) {
                                Some(v) => {
                                    lemma_read_tokens(values.with_value(i, v), tail);
                                },
                                None => {
                                    lemma_custom(values, pair);
                                    reveal_with_fuel(text::join, 3);
                                    assert(pair.drop_first() =~= seq![word]);
                                    assert(text::join(pair, seq![' ']) =~= token + seq![' ']
                                        + word);
                                    lemma_read_tokens(
                                        values.with_custom(token + seq![' '] + word),
                                        tail,
                                    );
                                },
                            }
                        }
                    },
                },
            }
        }
    }
}

/// Taking the model flags out leaves tokens of a line, without model flags.
proof fn lemma_without_model(list: Seq<Seq<char>>)
    requires
        token_laws::are_line_tokens(list),
    ensures
        token_laws::are_line_tokens(cmd_block::without_model(list)),
        round_trip::keeps_model(cmd_block::without_model(list)),
    decreases list.len(),
{
    let kept = cmd_block::without_model(list);
    if list.len() > 0 {
        if list.len() >= 2 && swap_yaml::is_model_flag(list[0]) {
            lemma_tokens_part(list, 2);
            lemma_without_model(list.skip(2));
        } else {
            let others = cmd_block::without_model(list.drop_first());
            lemma_tokens_part(list, 1);
            assert(list.skip(1) =~= list.drop_first());
            lemma_without_model(list.drop_first());
            if list.len() == 1 {
                assert(list.drop_first() =~= Seq::<Seq<char>>::empty());
                assert(others =~= Seq::<Seq<char>>::empty());
            } else {
                assert(token_laws::is_closed(list[0]));
            }
            assert(token_laws::is_token(list[0]));
            lemma_tokens_front(list[0], others);
            assert forall|i: int| 0 <= i < kept.len() - 1 implies !swap_yaml::is_model_flag(
                #[trigger] kept[i],
            ) by {
                if i > 0 {
                    assert(kept[i] == others[i - 1]);
                }
            }
        }
    }
}

proof fn lemma_tokens_part(list: Seq<Seq<char>>, from: int)
    requires
        0 <= from <= list.len(),
        token_laws::are_line_tokens(list),
    ensures
        token_laws::are_line_tokens(list.skip(from)),
{
    let part = list.skip(from);
    assert forall|i: int| 0 <= i < part.len() implies token_laws::is_token(#[trigger] part[i])
        && !text::is_white(part[i].last()) by {
        assert(part[i] == list[from + i]);
    }
    assert forall|i: int| 0 <= i < part.len() - 1 implies token_laws::is_closed(
        #[trigger] part[i],
    ) by {
        assert(part[i] == list[from + i]);
    }
}

/// A token before others, closed unless there are none.
proof fn lemma_tokens_front(token: Seq<char>, others: Seq<Seq<char>>)
    requires
        token_laws::is_token(token),
        !text::is_white(token.last()),
        others.len() > 0 ==> token_laws::is_closed(token),
        token_laws::are_line_tokens(others),
    ensures
        token_laws::are_line_tokens(seq![token] + others),
{
    let list = seq![token] + others;
    assert forall|i: int| 0 <= i < list.len() implies token_laws::is_token(#[trigger] list[i])
        && !text::is_white(list[i].last()) by {
        if i > 0 {
            assert(list[i] == others[i - 1]);
        }
    }
    assert forall|i: int| 0 <= i < list.len() - 1 implies token_laws::is_closed(
        #[trigger] list[i],
    ) by {
        if i > 0 {
            assert(list[i] == others[i - 1]);
        }
    }
}

/// Taking the port out leaves tokens of a line, without model flags and without the port.
proof fn lemma_without_port(list: Seq<Seq<char>>)
    requires
        token_laws::are_line_tokens(list),
        round_trip::keeps_model(list),
    ensures
        are_flag_tokens(param_values::without_port(list)),
    decreases list.len(),
{
    let kept = param_values::without_port(list);
    if list.len() > 0 {
        let rest = list.drop_first();
        lemma_tokens_part(list, 1);
        assert(list.skip(1) =~= rest);
        assert forall|i: int| 0 <= i < rest.len() - 1 implies !swap_yaml::is_model_flag(
            #[trigger] rest[i],
        ) by {
            assert(rest[i] == list[i + 1]);
        }
        if param_values::is_port_flag(list[0]) {
            if list.len() >= 2 {
                let tail = list.skip(2);
                lemma_tokens_part(list, 2);
                assert forall|i: int| 0 <= i < tail.len() - 1 implies !swap_yaml::is_model_flag(
                    #[trigger] tail[i],
                ) by {
                    assert(tail[i] == list[i + 2]);
                }
                lemma_without_port(tail);
            }
        } else if param_values::is_port_setting(list[0]) {
            lemma_without_port(rest);
        } else {
            lemma_without_port(rest);
            let others = param_values::without_port(rest);
            if list.len() == 1 {
                assert(rest =~= Seq::<Seq<char>>::empty());
                assert(others =~= Seq::<Seq<char>>::empty());
            } else {
                assert(token_laws::is_closed(list[0]));
                assert(!swap_yaml::is_model_flag(list[0]));
            }
            assert(token_laws::is_token(list[0]));
            lemma_tokens_front(list[0], others);
            assert forall|i: int| 0 <= i < kept.len() - 1 implies !swap_yaml::is_model_flag(
                #[trigger] kept[i],
            ) by {
                if i > 0 {
                    assert(kept[i] == others[i - 1]);
                }
            }
            assert forall|i: int| 0 <= i < kept.len() implies !param_values::is_port_flag(
                #[trigger] kept[i],
            ) && !param_values::is_port_setting(kept[i]) by {
                if i > 0 {
                    assert(kept[i] == others[i - 1]);
                }
            }
        }
    }
}

/// Importing the flag tokens of a block gives values that fit their flags, and custom
/// lines that are read back as themselves.
proof fn lemma_import(list: Seq<Seq<Seq<char>>>)
    requires
        are_block_tokens(list),
    ensures
        is_imported(
            param_values::read_lines(
                ValuesSpec::unset(REGISTRY_LEN as nat),
                cmd_block::flag_tokens(list),
            ),
        ),
    decreases list.len(),
{
    let unset = ValuesSpec::unset(REGISTRY_LEN as nat);
    if list.len() == 0 {
        assert(is_imported(unset));
    } else {
        let shorter = list.drop_last();
        assert forall|i: int| 0 <= i < shorter.len() implies token_laws::are_line_tokens(
            #[trigger] shorter[i],
        ) by {
            assert(shorter[i] == list[i]);
        }
        lemma_import(shorter);
        let earlier = cmd_block::flag_tokens(shorter);
        assert(token_laws::are_line_tokens(list[list.len() - 1]));
        let kept = cmd_block::without_model(list.last());
        lemma_without_model(list.last());
        if kept.len() > 0 {
            lemma_without_port(kept);
            lemma_read_tokens(
                param_values::read_lines(unset, earlier),
                param_values::without_port(kept),
            );
            assert(earlier.push(kept).drop_last() =~= earlier);
        }
    }
}

/// The first line with a server token has one.
pub proof fn lemma_server_line(list: Seq<Seq<Seq<char>>>)
    ensures
        0 <= cmd_block::server_line(list) <= list.len(),
        cmd_block::server_line(list) < list.len() ==> cmd_block::server_index(
            list[cmd_block::server_line(list)],
        ) < list[cmd_block::server_line(list)].len(),
    decreases list.len(),
{
    if list.len() > 0 && cmd_block::server_index(list[0]) >= list[0].len() {
        lemma_server_line(list.drop_first());
    }
}

/// The lines behind the invocation are lines of tokens.
proof fn lemma_arguments(list: Seq<Seq<Seq<char>>>)
    requires
        are_block_tokens(list),
    ensures
        are_block_tokens(cmd_block::arguments(list)),
{
    lemma_server_line(list);
    let at = cmd_block::server_line(list);
    if at < list.len() {
        let line = list[at];
        text::lemma_first_index(line, 0, |token: Seq<char>| cmd_block::is_server(token));
        let from = cmd_block::server_index(line) + 1;
        lemma_tokens_part(line, from);
        let rest = cmd_block::arguments(list);
        assert forall|i: int| 0 <= i < rest.len() implies token_laws::are_line_tokens(
            #[trigger] rest[i],
        ) by {
            if i > 0 {
                assert(rest[i] == list[at + i]);
            }
        }
    }
}

/// The token lines of a block are lines of tokens.
pub proof fn block_tokens_are_tokens(body: Seq<Seq<char>>)
    ensures
        are_block_tokens(block_laws::body_tokens(body)),
{
    let list = block_laws::body_tokens(body);
    assert forall|i: int| 0 <= i < list.len() implies token_laws::are_line_tokens(
        #[trigger] list[i],
    ) by {
        let line = text::trim(body[i]);
        text::lemma_trim_end(text::trim_start(body[i]));
        token_laws::tokens_are_line_tokens(line);
        assert(list[i] == cmd_block::tokens(line));
    }
}

/// Imported values are read back as themselves where the texts among them are.
pub proof fn imported_values_read_back(list: Seq<Seq<Seq<char>>>)
    requires
        are_block_tokens(list),
        texts_read_back(
            param_values::read_lines(
                ValuesSpec::unset(REGISTRY_LEN as nat),
                cmd_block::command_parts(list).1,
            ),
        ),
    ensures
        round_trip::values_read_back(
            param_values::read_lines(
                ValuesSpec::unset(REGISTRY_LEN as nat),
                cmd_block::command_parts(list).1,
            ),
        ),
{
    let unset = ValuesSpec::unset(REGISTRY_LEN as nat);
    let values = param_values::read_lines(unset, cmd_block::command_parts(list).1);
    lemma_arguments(list);
    lemma_import(cmd_block::arguments(list));
    assert forall|i: int| 0 <= i < REGISTRY_LEN implies round_trip::value_reads_back(
        registry_table::flag_table()[i],
        #[trigger] values.values[i],
    ) by {
        assert(round_trip::value_fits(registry_table::flag_table()[i], values.values[i]));
    }
}

/// An imported command, written out and read again, gives the same invocation, model path
/// and values, as far as the invocation, the model path and the texts among the values
/// are read back as themselves. Numbers, options, switches and custom lines always are.
pub proof fn imported_command_reads_back(list: Seq<Seq<Seq<char>>>)
    requires
        are_block_tokens(list),
        round_trip::invocation_reads_back(cmd_block::command_parts(list).0),
        cmd_block::command_parts(list).2 is Some ==> round_trip::model_reads_back(
            cmd_block::command_parts(list).2->0,
        ),
        texts_read_back(
            param_values::read_lines(
                ValuesSpec::unset(REGISTRY_LEN as nat),
                cmd_block::command_parts(list).1,
            ),
        ),
    ensures
        ({
            let unset = ValuesSpec::unset(REGISTRY_LEN as nat);
            let parts = cmd_block::command_parts(list);
            let values = param_values::read_lines(unset, parts.1);
            let body = param_builder::body_lines(parts.0, parts.2, values);
            let again = cmd_block::command_parts(block_laws::body_tokens(body));
            &&& again.0 == parts.0
            &&& again.2 == parts.2
            &&& param_values::read_lines(unset, again.1) == values
            &&& param_builder::binary_or_default(parts.0) == parts.0
            &&& body.len() > 0
            &&& !cmd_block::is_blank(body.last())
        }),
{
    let unset = ValuesSpec::unset(REGISTRY_LEN as nat);
    let parts = cmd_block::command_parts(list);
    let values = param_values::read_lines(unset, parts.1);
    imported_values_read_back(list);
    round_trip::written_command_reads_back(parts.0, parts.2, values);
}

/// The tokens of the invocation; a single one where there is no server binary.
pub open spec fn invocation_tokens(list: Seq<Seq<Seq<char>>>) -> Seq<Seq<char>> {
    let at = cmd_block::server_line(list);
    if at < list.len() {
        cmd_block::all_tokens(list.take(at)) + list[at].take(
            cmd_block::server_index(list[at]) + 1,
        )
    } else {
        seq!["llama-server"@]
    }
}

proof fn lemma_all_tokens_split(list: Seq<Seq<Seq<char>>>, at: int)
    requires
        0 <= at <= list.len(),
    ensures
        cmd_block::all_tokens(list) == cmd_block::all_tokens(list.take(at))
            + cmd_block::all_tokens(list.skip(at)),
    decreases list.len(),
{
    if at == list.len() {
        assert(list.take(at) =~= list);
        assert(list.skip(at) =~= Seq::<Seq<Seq<char>>>::empty());
        assert(cmd_block::all_tokens(list) + Seq::<Seq<char>>::empty() =~= cmd_block::all_tokens(
            list,
        ));
    } else {
        let shorter = list.drop_last();
        lemma_all_tokens_split(shorter, at);
        assert(shorter.take(at) =~= list.take(at));
        assert(list.skip(at).drop_last() =~= shorter.skip(at));
        assert(list.skip(at).last() == list.last());
        assert(cmd_block::all_tokens(list.take(at)) + (cmd_block::all_tokens(shorter.skip(at))
            + list.last()) =~= cmd_block::all_tokens(list));
    }
}

proof fn lemma_all_tokens_front(line: Seq<Seq<char>>, rest: Seq<Seq<Seq<char>>>)
    ensures
        cmd_block::all_tokens(seq![line] + rest) == line + cmd_block::all_tokens(rest),
{
    let list = seq![line] + rest;
    lemma_all_tokens_split(list, 1);
    assert(list.take(1) =~= seq![line]);
    assert(list.skip(1) =~= rest);
    assert(seq![line].drop_last() =~= Seq::<Seq<Seq<char>>>::empty());
    reveal_with_fuel(cmd_block::all_tokens, 2);
    assert(cmd_block::all_tokens(seq![line]) =~= line);
}

/// Splitting a command into its invocation and its arguments loses no token and adds none.
pub proof fn parsing_keeps_every_token(list: Seq<Seq<Seq<char>>>)
    ensures
        cmd_block::server_line(list) < list.len() ==> invocation_tokens(list)
            + cmd_block::all_tokens(cmd_block::arguments(list)) == cmd_block::all_tokens(list),
        cmd_block::server_line(list) >= list.len() ==> cmd_block::all_tokens(
            cmd_block::arguments(list),
        ) == cmd_block::all_tokens(list),
        cmd_block::invocation(list) == text::join(invocation_tokens(list), seq![' ']),
{
    lemma_server_line(list);
    let at = cmd_block::server_line(list);
    if at < list.len() {
        let line = list[at];
        text::lemma_first_index(line, 0, |token: Seq<char>| cmd_block::is_server(token));
        let n = cmd_block::server_index(line) + 1;
        let tail = list.skip(at + 1);
        lemma_all_tokens_split(list, at);
        assert(list.skip(at) =~= seq![line] + tail);
        lemma_all_tokens_front(line, tail);
        lemma_all_tokens_front(line.skip(n), tail);
        assert(line =~= line.take(n) + line.skip(n));
        assert(invocation_tokens(list) + (line.skip(n) + cmd_block::all_tokens(tail))
            =~= cmd_block::all_tokens(list));
    }
}

/// What import does with a run of tokens: it stores the value of a flag, or keeps the run
/// as a custom line.
pub enum ImportStep {
    Stored { flag: int, value: ValueSpec, run: Seq<Seq<char>> },
    Kept { run: Seq<Seq<char>> },
}

/// Whether a step is one that the run of tokens calls for.
pub open spec fn is_step(step: ImportStep) -> bool {
    match step {
        ImportStep::Kept { run } => run.len() > 0,
        ImportStep::Stored { flag, value, run } => {
            let kind = registry_table::flag_table()[flag].kind;
            ||| run.len() == 1 && param_registry::find_flag(run[0]) == Some(flag) && kind is Toggle
                && value == ValueSpec::On
            ||| run.len() == 2 && param_registry::find_flag(run[0]) == Some(flag)
                && param_registry::value_of_token(kind, cmd_block::without_quotes(run[1])) == Some(
                value,
            )
            ||| run.len() == 1 && (match text::split_once(run[0], '=') {
                Some((name, given)) => param_registry::find_flag(name) == Some(flag)
                    && param_registry::value_of_token(kind, cmd_block::without_quotes(given))
                    == Some(value),
                None => false,
            })
        },
    }
}

/// The tokens of the steps, one after the other.
pub open spec fn step_tokens(steps: Seq<ImportStep>) -> Seq<Seq<char>>
    decreases steps.len(),
{
    if steps.len() == 0 {
        Seq::empty()
    } else {
        (match steps[0] {
            ImportStep::Stored { run, .. } => run,
            ImportStep::Kept { run } => run,
        }) + step_tokens(steps.drop_first())
    }
}

/// The values after the steps.
pub open spec fn after_steps(values: ValuesSpec, steps: Seq<ImportStep>) -> ValuesSpec
    decreases steps.len(),
{
    if steps.len() == 0 {
        values
    } else {
        let next = match steps[0] {
            ImportStep::Stored { flag, value, .. } => values.with_value(flag, value),
            ImportStep::Kept { run } => values.with_custom(text::join(run, seq![' '])),
        };
        after_steps(next, steps.drop_first())
    }
}

/// Whether the steps cut the tokens into runs and do what import does.
pub open spec fn accounts_for(
    steps: Seq<ImportStep>,
    values: ValuesSpec,
    list: Seq<Seq<char>>,
) -> bool {
    &&& forall|i: int| 0 <= i < steps.len() ==> is_step(#[trigger] steps[i])
    &&& step_tokens(steps) == list
    &&& after_steps(values, steps) == param_values::read_tokens(values, list)
}

proof fn lemma_step_front(
    first: ImportStep,
    run: Seq<Seq<char>>,
    rest: Seq<ImportStep>,
    values: ValuesSpec,
    next: ValuesSpec,
    list: Seq<Seq<char>>,
)
    requires
        is_step(first),
        run == (match first {
            ImportStep::Stored { run, .. } => run,
            ImportStep::Kept { run } => run,
        }),
        next == (match first {
            ImportStep::Stored { flag, value, .. } => values.with_value(flag, value),
            ImportStep::Kept { run } => values.with_custom(text::join(run, seq![' '])),
        }),
        run.len() <= list.len(),
        run == list.take(run.len() as int),
        accounts_for(rest, next, list.skip(run.len() as int)),
        param_values::read_tokens(values, list) == param_values::read_tokens(
            next,
            list.skip(run.len() as int),
        ),
    ensures
        accounts_for(seq![first] + rest, values, list),
{
    let steps = seq![first] + rest;
    assert(steps.drop_first() =~= rest);
    assert(run + list.skip(run.len() as int) =~= list);
    assert forall|i: int| 0 <= i < steps.len() implies is_step(#[trigger] steps[i]) by {
        if i > 0 {
            assert(steps[i] == rest[i - 1]);
        }
    }
}

/// Import accounts for every token of a line: the tokens are cut into runs, one after the
/// other, and each run either gives a flag its value or is kept whole as a custom line.
pub proof fn import_accounts_for_every_token(values: ValuesSpec, list: Seq<Seq<char>>) -> (steps:
    Seq<ImportStep>)
    ensures
        accounts_for(steps, values, list),
    decreases list.len(), 1int,
{
    let none = Seq::<ImportStep>::empty();
    if list.len() == 0 {
        assert(step_tokens(none) =~= list);
        none
    } else {
        first_step(values, list)
    }
}

/// The steps for tokens of which there is at least one.
proof fn first_step(values: ValuesSpec, list: Seq<Seq<char>>) -> (steps: Seq<ImportStep>)
    requires
        list.len() > 0,
    ensures
        accounts_for(steps, values, list),
    decreases list.len(), 0int,
{
    let none = Seq::<ImportStep>::empty();
    let token = list[0];
    let rest = list.drop_first();
    let nothing = Seq::<Seq<char>>::empty();
    let single = list.take(1);
    assert(text::join(single, seq![' ']) == token);
    assert(list.skip(1) =~= rest);
    assert(list.take(list.len() as int) =~= list);
    assert(list.skip(list.len() as int) =~= nothing);
    let whole = ImportStep::Kept { run: list };
    let alone = ImportStep::Kept { run: single };
    assert forall|v: ValuesSpec| #[trigger] accounts_for(none, v, nothing) by {
        assert(step_tokens(none) =~= nothing);
    }
    let kept = values.with_custom(text::join(list, seq![' ']));
    if !param_values::is_flag(token) {
        assert(accounts_for(none, kept, nothing));
        lemma_step_front(whole, list, none, values, kept, list);
        seq![whole] + none
    } else {
        match text::split_once(token, '=') {
            Some((name, given)) => {
                let next = param_values::read_assignment(values, token, name, given);
                let others = import_accounts_for_every_token(next, rest);
                let first = match param_registry::find_flag(name) {
                    Some(flag) => match param_registry::value_of_token(
                        registry_table::flag_table()[flag].kind,
                        cmd_block::without_quotes(given),
                    ) {
                        Some(value) => ImportStep::Stored { flag, value, run: single },
                        None => alone,
                    },
                    None => alone,
                };
                lemma_step_front(first, single, others, values, next, list);
                seq![first] + others
            },
            None => match param_registry::find_flag(token) {
                None => {
                    let n = param_values::next_flag(list, 1);
                    let run = list.take(n);
                    param_values::lemma_next_flag(list, 1);
                    let next = values.with_custom(text::join(run, seq![' ']));
                    let others = import_accounts_for_every_token(next, list.skip(n));
                    let first = ImportStep::Kept { run };
                    lemma_step_front(first, run, others, values, next, list);
                    seq![first] + others
                },
                Some(flag) => {
                    let kind = registry_table::flag_table()[flag].kind;
                    if kind is Toggle {
                        let next = values.with_value(flag, ValueSpec::On);
                        let others = import_accounts_for_every_token(next, rest);
                        let first = ImportStep::Stored {
                            flag,
                            value: ValueSpec::On,
                            run: single,
                        };
                        lemma_step_front(first, single, others, values, next, list);
                        seq![first] + others
                    } else if rest.len() == 0 {
                        assert(rest =~= nothing);
                        let next = values.with_custom(token);
                        assert(accounts_for(none, next, nothing));
                        lemma_step_front(alone, single, none, values, next, list);
                        seq![alone] + none
                    } else {
                        let pair = list.take(2);
                        let word = rest[0];
                        let tail = rest.drop_first();
                        assert(list.skip(2) =~= tail);
                        reveal_with_fuel(text::join, 3);
                        assert(pair.drop_first() =~= seq![word]);
                        assert(text::join(pair, seq![' ']) =~= token + seq![' '] + word);
                        match param_registry::value_of_token(
                            kind,
                            cmd_block::without_quotes(word),
                        ) {
                            Some(value) => {
                                let next = values.with_value(flag, value);
                                let others = import_accounts_for_every_token(next, tail);
                                let first = ImportStep::Stored { flag, value, run: pair };
                                lemma_step_front(first, pair, others, values, next, list);
                                seq![first] + others
                            },
                            None => {
                                let next = values.with_custom(token + seq![' '] + word);
                                let others = import_accounts_for_every_token(next, tail);
                                let first = ImportStep::Kept { run: pair };
                                lemma_step_front(first, pair, others, values, next, list);
                                seq![first] + others
                            },
                        }
                    }
                },
            },
        }
    }
}

/// The invocation for a command without a server binary is read back as itself.
pub proof fn default_invocation_reads_back()
    ensures
        round_trip::invocation_reads_back("llama-server"@),
{
    reveal_strlit("llama-server");
    reveal_strlit("server");
    let word = "llama-server"@;
    let list = seq![word];
    assert(round_trip::is_bare(word));
    round_trip::lemma_bare_token(word);
    token_laws::joined_tokens_read_back(list);
    assert(text::join(list, seq![' ']) == word);
    let is_server = |token: Seq<char>| cmd_block::is_server(token);
    assert(word.skip(6) =~= "server"@);
    assert(cmd_block::without_braces(word) == word);
    text::lemma_first_index_is(list, 0, is_server, 0);
}

/// An invocation whose tokens close their quotes, but for the last, is read back as
/// itself.
pub proof fn closed_invocation_reads_back(list: Seq<Seq<Seq<char>>>)
    requires
        cmd_block::server_line(list) < list.len() ==> token_laws::are_line_tokens(
            invocation_tokens(list),
        ),
    ensures
        round_trip::invocation_reads_back(cmd_block::invocation(list)),
{
    lemma_server_line(list);
    default_invocation_reads_back();
    if cmd_block::server_line(list) < list.len() {
        lemma_found_invocation(list);
    }
}

proof fn lemma_found_invocation(list: Seq<Seq<Seq<char>>>)
    requires
        cmd_block::server_line(list) < list.len(),
        token_laws::are_line_tokens(invocation_tokens(list)),
    ensures
        round_trip::invocation_reads_back(cmd_block::invocation(list)),
{
    lemma_server_line(list);
    let at = cmd_block::server_line(list);
    let line = list[at];
    let is_server = |token: Seq<char>| cmd_block::is_server(token);
    text::lemma_first_index(line, 0, is_server);
    let n = cmd_block::server_index(line);
    let all = invocation_tokens(list);
    token_laws::joined_tokens_read_back(all);
    let head = cmd_block::all_tokens(list.take(at));
    lemma_no_server_before(list, at);
    assert forall|i: int| 0 <= i < all.len() - 1 implies !is_server(#[trigger] all[i]) by {
        if i < head.len() {
            assert(all[i] == head[i]);
        } else {
            assert(all[i] == line[i - head.len()]);
        }
    }
    assert(all[all.len() - 1] == line[n]);
    text::lemma_first_index_is(all, 0, is_server, all.len() - 1);
}

/// No token before the line with the server token names a server.
proof fn lemma_no_server_before(list: Seq<Seq<Seq<char>>>, at: int)
    requires
        0 <= at <= cmd_block::server_line(list),
        at <= list.len(),
    ensures
        forall|i: int|
            0 <= i < cmd_block::all_tokens(list.take(at)).len() ==> !cmd_block::is_server(
                #[trigger] cmd_block::all_tokens(list.take(at))[i],
            ),
    decreases at,
{
    let head = cmd_block::all_tokens(list.take(at));
    if at > 0 {
        lemma_no_server_before(list, at - 1);
        assert(list.take(at).drop_last() =~= list.take(at - 1));
        let earlier = cmd_block::all_tokens(list.take(at - 1));
        let line = list[at - 1];
        lemma_no_server_on_line(list, at - 1);
        assert(list.take(at).last() == line);
        text::lemma_first_index(line, 0, |token: Seq<char>| cmd_block::is_server(token));
        assert forall|i: int| 0 <= i < head.len() implies !cmd_block::is_server(
            #[trigger] head[i],
        ) by {
            if i < earlier.len() {
                assert(head[i] == earlier[i]);
            } else {
                let token = line[i - earlier.len()];
                assert(head[i] == token);
                assert(!(|token: Seq<char>| cmd_block::is_server(token))(token));
            }
        }
    }
}

proof fn lemma_no_server_on_line(list: Seq<Seq<Seq<char>>>, i: int)
    requires
        0 <= i < cmd_block::server_line(list),
        i < list.len(),
    ensures
        cmd_block::server_index(list[i]) >= list[i].len(),
    decreases i,
{
    if i > 0 {
        lemma_no_server_on_line(list.drop_first(), i - 1);
        assert(list[i] == list.drop_first()[i - 1]);
    }
}

proof fn lemma_join_ends(list: Seq<Seq<char>>)
    requires
        list.len() > 0,
        forall|i: int| 0 <= i < list.len() ==> (#[trigger] list[i]).len() > 0,
    ensures
        text::join(list, seq![' ']).len() > 0,
        text::join(list, seq![' '])[0] == list[0][0],
        text::join(list, seq![' ']).last() == list.last().last(),
    decreases list.len(),
{
    assert(list[0].len() > 0);
    if list.len() > 1 {
        let rest = list.drop_first();
        assert forall|i: int| 0 <= i < rest.len() implies (#[trigger] rest[i]).len() > 0 by {
            assert(rest[i] == list[i + 1]);
        }
        lemma_join_ends(rest);
    }
}

proof fn lemma_all_tokens_plain(list: Seq<Seq<Seq<char>>>)
    requires
        are_block_tokens(list),
    ensures
        forall|i: int|
            0 <= i < cmd_block::all_tokens(list).len() ==> token_laws::is_token(
                #[trigger] cmd_block::all_tokens(list)[i],
            ) && !text::is_white(cmd_block::all_tokens(list)[i].last()),
    decreases list.len(),
{
    if list.len() > 0 {
        let shorter = list.drop_last();
        assert forall|i: int| 0 <= i < shorter.len() implies token_laws::are_line_tokens(
            #[trigger] shorter[i],
        ) by {
            assert(shorter[i] == list[i]);
        }
        lemma_all_tokens_plain(shorter);
        let earlier = cmd_block::all_tokens(shorter);
        let all = cmd_block::all_tokens(list);
        assert(token_laws::are_line_tokens(list[list.len() - 1]));
        assert forall|i: int| 0 <= i < all.len() implies token_laws::is_token(#[trigger] all[i])
            && !text::is_white(all[i].last()) by {
            if i < earlier.len() {
                assert(all[i] == earlier[i]);
            } else {
                assert(all[i] == list.last()[i - earlier.len()]);
            }
        }
    }
}

/// Import keeps the invocation of a parsed command as it is.
pub proof fn imported_invocation_is_kept(list: Seq<Seq<Seq<char>>>)
    requires
        are_block_tokens(list),
    ensures
        param_builder::binary_or_default(cmd_block::invocation(list)) == cmd_block::invocation(
            list,
        ),
{
    lemma_server_line(list);
    let at = cmd_block::server_line(list);
    let binary = cmd_block::invocation(list);
    if at < list.len() {
        let all = invocation_tokens(list);
        let head = list.take(at);
        let line = list[at];
        text::lemma_first_index(line, 0, |token: Seq<char>| cmd_block::is_server(token));
        assert forall|i: int| 0 <= i < head.len() implies token_laws::are_line_tokens(
            #[trigger] head[i],
        ) by {
            assert(head[i] == list[i]);
        }
        lemma_all_tokens_plain(head);
        let earlier = cmd_block::all_tokens(head);
        assert(token_laws::are_line_tokens(list[at]));
        assert forall|i: int| 0 <= i < all.len() implies token_laws::is_token(#[trigger] all[i])
            && !text::is_white(all[i].last()) && all[i].len() > 0 by {
            if i < earlier.len() {
                assert(all[i] == earlier[i]);
            } else {
                assert(all[i] == line[i - earlier.len()]);
            }
        }
        assert(all.len() > 0);
        lemma_join_ends(all);
        assert(token_laws::is_token(all[0]));
        assert(!text::is_white(all[all.len() - 1].last()));
        assert(text::trim(binary) == binary);
    } else {
        reveal_strlit("llama-server");
        assert(text::trim(binary) == binary);
    }
}

} // verus!
