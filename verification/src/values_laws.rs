//! What command lines are read as, and what values are written as, flag by flag.

use crate::param_builder::BuilderSpec;
use crate::param_registry;
use crate::param_registry::{KindSpec, ValueSpec, REGISTRY_LEN};
use crate::param_values;
use crate::param_values::ValuesSpec;
use crate::text_laws::{is_core, is_gap};
use crate::{cmd_block, command_laws, number, registry_laws, registry_table, text};
use crate::text_laws;
use vstd::prelude::*;

verus! {

/// Whether a text spells a value of a flag of this kind: a number within the bounds in
/// decimal, one of the words for three states, the name of an option, or any text.
pub open spec fn spells(kind: KindSpec, word: Seq<char>, value: ValueSpec) -> bool {
    match kind {
        KindSpec::Integer { min, max, .. } => match value {
            ValueSpec::Integer(v) => min <= v <= max && (word == number::decimal_int(v) || (v >= 0
                && word == seq!['+'] + number::decimal(v as nat))),
            _ => false,
        },
        KindSpec::TriState => {
            ||| word == "on"@ && value == ValueSpec::On
            ||| word == "off"@ && value == ValueSpec::Off
            ||| word == "auto"@ && value == ValueSpec::Unset
        },
        KindSpec::Choice(options) => match value {
            ValueSpec::Choice(n) => 0 <= n < options.len() && word == options[n],
            _ => false,
        },
        KindSpec::Text => value == ValueSpec::Text(word),
        KindSpec::Toggle => false,
    }
}

/// Whether a text spells no value of a flag of this kind.
pub open spec fn spells_nothing(kind: KindSpec, word: Seq<char>) -> bool {
    match kind {
        KindSpec::Integer { min, max, .. } => {
            ||| exists|v: int|
                word == #[trigger] number::decimal_int(v) && (v < min || v > max)
            ||| word.len() == 0
            ||| word == seq!['+']
            ||| word == seq!['-']
            ||| exists|k: int|
                0 <= k < word.len() && !('0' <= #[trigger] word[k] <= '9') && (k > 0 || (word[0]
                    != '+' && word[0] != '-'))
        },
        KindSpec::TriState => word != "on"@ && word != "off"@ && word != "auto"@,
        KindSpec::Choice(options) => forall|n: int|
            0 <= n < options.len() ==> #[trigger] options[n] != word,
        KindSpec::Text => false,
        KindSpec::Toggle => true,
    }
}

/// Whether a token is a text, alone or with one layer of quotes around it.
pub open spec fn wraps(token: Seq<char>, word: Seq<char>) -> bool {
    ||| token == word && (word.len() <= 1 || (word[0] != '"' && word[0] != '\'') || word.last()
        != word[0])
    ||| token == seq!['"'] + word + seq!['"']
    ||| token == seq!['\''] + word + seq!['\'']
}

proof fn lemma_wraps(token: Seq<char>, word: Seq<char>)
    requires
        wraps(token, word),
    ensures
        cmd_block::without_quotes(token) == word,
{
    command_laws::one_layer_of_quotes_is_taken(word, token);
}

/// Every value is read from the text that spells it, and a text that spells none is
/// refused.
pub proof fn spelled_values_are_read(i: int, word: Seq<char>, value: ValueSpec)
    requires
        0 <= i < REGISTRY_LEN,
    ensures
        spells(registry_table::flag_table()[i].kind, word, value) ==> param_registry::value_of_token(
            registry_table::flag_table()[i].kind,
            word,
        ) == Some(value),
        spells_nothing(registry_table::flag_table()[i].kind, word)
            ==> param_registry::value_of_token(registry_table::flag_table()[i].kind, word) is None,
{
    registry_laws::registry_is_well_formed(i);
    reveal_strlit("on");
    reveal_strlit("off");
    reveal_strlit("auto");
    let kind = registry_table::flag_table()[i].kind;
    match kind {
        KindSpec::Integer { min, max, .. } => {
            if spells(kind, word, value) {
                text_laws::signed_decimals_are_read(value->Integer_0);
            }
            if spells_nothing(kind, word) {
                if word.len() == 0 {
                    text_laws::other_texts_are_no_numbers(word, 0, 0);
                } else if word == seq!['+'] || word == seq!['-'] {
                    assert(word.drop_first() =~= Seq::<char>::empty());
                } else if exists|k: int|
                    0 <= k < word.len() && !('0' <= #[trigger] word[k] <= '9') && (k > 0 || (word[0]
                        != '+' && word[0] != '-')) {
                    let k = choose|k: int|
                        0 <= k < word.len() && !('0' <= #[trigger] word[k] <= '9') && (k > 0 || (
                        word[0] != '+' && word[0] != '-'));
                    text_laws::other_texts_are_no_numbers(word, k, 0);
                } else {
                    let v = choose|v: int|
                        word == #[trigger] number::decimal_int(v) && (v < min || v > max);
                    text_laws::signed_decimals_are_read(v);
                }
            }
        },
        KindSpec::Choice(options) => {
            param_registry::lemma_option_index(options, word);
            if spells(kind, word, value) {
                let n = value->Choice_0;
                assert(options.contains(options[n]));
                let m = param_registry::option_index(options, word)->0;
                if m < n {
                    assert(options[m] != options[n]);
                }
            }
        },
        KindSpec::TriState => {
            assert("on"@.len() != "off"@.len() && "off"@.len() != "auto"@.len());
        },
        _ => {},
    }
}

/// Any spelling of a flag, followed by its value as one token or joined to it by `=`, with
/// quotes around the value or without, stores that value and nothing else; reading goes on
/// behind it.
pub proof fn flag_with_its_value_is_stored(
    values: ValuesSpec,
    i: int,
    a: int,
    token: Seq<char>,
    word: Seq<char>,
    value: ValueSpec,
    rest: Seq<Seq<char>>,
)
    requires
        0 <= i < REGISTRY_LEN,
        0 <= a <= registry_table::flag_table()[i].aliases.len(),
        wraps(token, word),
        spells(registry_table::flag_table()[i].kind, word, value),
    ensures
        ({
            let flag = registry_laws::spelling(registry_table::flag_table()[i], a);
            let stored = ValuesSpec {
                values: values.values.update(i, value),
                custom: values.custom,
            };
            &&& param_values::read_tokens(values, seq![flag, token] + rest)
                == param_values::read_tokens(stored, rest)
            &&& param_values::read_tokens(values, seq![flag + seq!['='] + token] + rest)
                == param_values::read_tokens(stored, rest)
        }),
{
    let flag = registry_laws::spelling(registry_table::flag_table()[i], a);
    lemma_spelling(i, a, token);
    lemma_wraps(token, word);
    spelled_values_are_read(i, word, value);
    let list = seq![flag, token] + rest;
    assert(list[0] == flag);
    assert(list.drop_first() =~= seq![token] + rest);
    assert(list.drop_first().drop_first() =~= rest);
    let joined = seq![flag + seq!['='] + token] + rest;
    assert(joined[0] == flag + seq!['='] + token);
    assert(joined.drop_first() =~= rest);
}

proof fn lemma_spelling(i: int, a: int, token: Seq<char>)
    requires
        0 <= i < REGISTRY_LEN,
        0 <= a <= registry_table::flag_table()[i].aliases.len(),
    ensures
        ({
            let flag = registry_laws::spelling(registry_table::flag_table()[i], a);
            &&& param_registry::find_flag(flag) == Some(i)
            &&& text::split_once(flag, '=') is None
            &&& text::split_once(flag + seq!['='] + token, '=') == Some((flag, token))
            &&& param_values::is_flag(flag)
            &&& param_values::is_flag(flag + seq!['='] + token)
        }),
{
    let def = registry_table::flag_table()[i];
    let flag = registry_laws::spelling(def, a);
    registry_laws::registry_is_well_formed(i);
    registry_laws::every_spelling_is_found(i, a);
    registry_laws::known_flags_are_plain(flag);
    assert(!flag.contains('=')) by {
        if flag.contains('=') {
            let k = choose|k: int| 0 <= k < flag.len() && flag[k] == '=';
            assert(registry_laws::is_plain_char(flag[k]));
        }
    }
    text_laws::first_separator_parts(flag, '=', token);
    let joined = flag + seq!['='] + token;
    reveal_strlit("-");
    assert(joined[0] == flag[0]);
    assert(joined.len() >= 2);
}

/// A toggle is switched on by any of its spellings, and takes no value.
pub proof fn toggle_is_switched_on(values: ValuesSpec, i: int, a: int, rest: Seq<Seq<char>>)
    requires
        0 <= i < REGISTRY_LEN,
        0 <= a <= registry_table::flag_table()[i].aliases.len(),
        registry_table::flag_table()[i].kind is Toggle,
    ensures
        param_values::read_tokens(
            values,
            seq![registry_laws::spelling(registry_table::flag_table()[i], a)] + rest,
        ) == param_values::read_tokens(
            ValuesSpec {
                values: values.values.update(i, ValueSpec::On),
                custom: values.custom,
            },
            rest,
        ),
{
    let flag = registry_laws::spelling(registry_table::flag_table()[i], a);
    lemma_spelling(i, a, flag);
    let list = seq![flag] + rest;
    assert(list[0] == flag);
    assert(list.drop_first() =~= rest);
}

/// A flag with a value that it cannot have is kept with that value as a custom line; so is
/// a flag at the end of the line whose value is missing. No stored value changes.
pub proof fn misfit_is_kept_as_custom(
    values: ValuesSpec,
    i: int,
    a: int,
    token: Seq<char>,
    word: Seq<char>,
    rest: Seq<Seq<char>>,
)
    requires
        0 <= i < REGISTRY_LEN,
        0 <= a <= registry_table::flag_table()[i].aliases.len(),
        wraps(token, word),
        spells_nothing(registry_table::flag_table()[i].kind, word),
    ensures
        ({
            let flag = registry_laws::spelling(registry_table::flag_table()[i], a);
            let kind = registry_table::flag_table()[i].kind;
            &&& !(kind is Toggle) ==> param_values::read_tokens(values, seq![flag, token] + rest)
                == param_values::read_tokens(
                ValuesSpec {
                    values: values.values,
                    custom: values.custom + seq![flag + seq![' '] + token],
                },
                rest,
            )
            &&& param_values::read_tokens(values, seq![flag + seq!['='] + token] + rest)
                == param_values::read_tokens(
                ValuesSpec {
                    values: values.values,
                    custom: values.custom + seq![flag + seq!['='] + token],
                },
                rest,
            )
            &&& !(kind is Toggle) ==> param_values::read_tokens(values, seq![flag]) == (ValuesSpec {
                values: values.values,
                custom: values.custom + seq![flag],
            })
        }),
{
    let flag = registry_laws::spelling(registry_table::flag_table()[i], a);
    lemma_spelling(i, a, token);
    lemma_wraps(token, word);
    spelled_values_are_read(i, word, ValueSpec::Unset);
    let list = seq![flag, token] + rest;
    assert(list[0] == flag);
    assert(list.drop_first() =~= seq![token] + rest);
    assert(list.drop_first().drop_first() =~= rest);
    let joined = seq![flag + seq!['='] + token] + rest;
    assert(joined[0] == flag + seq!['='] + token);
    assert(joined.drop_first() =~= rest);
    let custom = values.custom;
    assert(custom.push(flag + seq![' '] + token) =~= custom + seq![flag + seq![' '] + token]);
    assert(custom.push(flag + seq!['='] + token) =~= custom + seq![flag + seq!['='] + token]);
    assert(custom.push(flag) =~= custom + seq![flag]);
}

/// Whether a token can be a value of the flag before it: it does not start with a dash, is
/// that dash alone, or is a negative number.
pub open spec fn is_operand(token: Seq<char>) -> bool {
    token.len() <= 1 && (token.len() == 0 || token[0] == '-') || (token.len() > 0 && (token[0]
        != '-' || (token.len() > 1 && '0' <= token[1] <= '9')))
}

/// A flag that the registry does not know is kept with all values behind it as one custom
/// line, up to the next flag.
pub proof fn unknown_flag_is_kept_with_its_values(
    values: ValuesSpec,
    flag: Seq<char>,
    words: Seq<Seq<char>>,
    rest: Seq<Seq<char>>,
)
    requires
        flag.len() >= 2,
        flag[0] == '-',
        !flag.contains('='),
        forall|i: int, a: int|
            0 <= i < REGISTRY_LEN && 0 <= a <= registry_table::flag_table()[i].aliases.len()
                ==> #[trigger] registry_laws::spelling(registry_table::flag_table()[i], a) != flag,
        forall|k: int| 0 <= k < words.len() ==> is_operand(#[trigger] words[k]),
        rest.len() > 0 ==> !is_operand(rest[0]),
    ensures
        param_values::read_tokens(values, seq![flag] + words + rest) == param_values::read_tokens(
            ValuesSpec {
                values: values.values,
                custom: values.custom + seq![text::join(seq![flag] + words, seq![' '])],
            },
            rest,
        ),
{
    let run = seq![flag] + words;
    let list = run + rest;
    let n = run.len() as int;
    reveal_strlit("-");
    assert(list[0] == flag);
    text_laws::first_separator_parts(flag, '=', flag);
    lemma_unknown(flag);
    let ends = |token: Seq<char>| param_values::ends_values(token);
    assert forall|k: int| 1 <= k < n implies !ends(#[trigger] list[k]) by {
        assert(list[k] == words[k - 1]);
        lemma_operand(words[k - 1]);
    }
    if rest.len() > 0 {
        assert(list[n] == rest[0]);
        lemma_operand(rest[0]);
    }
    text::lemma_first_index_is(list, 1, ends, n);
    assert(param_values::next_flag(list, 1) == n);
    assert(list.take(n) =~= run);
    assert(list.skip(n) =~= rest);
    let line = text::join(run, seq![' ']);
    assert(values.custom.push(line) =~= values.custom + seq![line]);
}

proof fn lemma_operand(token: Seq<char>)
    ensures
        is_operand(token) == !param_values::ends_values(token),
{
    reveal_strlit("-");
    if token.len() == 1 && token[0] == '-' {
        assert(token =~= "-"@);
    }
}

proof fn lemma_unknown(flag: Seq<char>)
    requires
        forall|i: int, a: int|
            0 <= i < REGISTRY_LEN && 0 <= a <= registry_table::flag_table()[i].aliases.len()
                ==> #[trigger] registry_laws::spelling(registry_table::flag_table()[i], a) != flag,
    ensures
        param_registry::find_flag(flag) is None,
{
    if param_registry::find_flag(flag) is Some {
        registry_laws::known_flags_are_plain(flag);
        let i = param_registry::find_flag(flag)->0;
        let a = choose|a: int|
            0 <= a <= registry_table::flag_table()[i].aliases.len() && flag
                == #[trigger] registry_laws::spelling(registry_table::flag_table()[i], a);
    }
}

/// An assignment to a flag that the registry does not know is kept as it stands.
pub proof fn unknown_assignment_is_kept(
    values: ValuesSpec,
    flag: Seq<char>,
    value: Seq<char>,
    rest: Seq<Seq<char>>,
)
    requires
        flag.len() >= 2,
        flag[0] == '-',
        !flag.contains('='),
        forall|i: int, a: int|
            0 <= i < REGISTRY_LEN && 0 <= a <= registry_table::flag_table()[i].aliases.len()
                ==> #[trigger] registry_laws::spelling(registry_table::flag_table()[i], a) != flag,
    ensures
        param_values::read_tokens(values, seq![flag + seq!['='] + value] + rest)
            == param_values::read_tokens(
            ValuesSpec {
                values: values.values,
                custom: values.custom + seq![flag + seq!['='] + value],
            },
            rest,
        ),
{
    let token = flag + seq!['='] + value;
    let list = seq![token] + rest;
    reveal_strlit("-");
    lemma_unknown(flag);
    text_laws::first_separator_parts(flag, '=', value);
    assert(list[0] == token && token[0] == '-' && token.len() > 1);
    assert(list.drop_first() =~= rest);
    assert(values.custom.push(token) =~= values.custom + seq![token]);
}

/// What does not start with a flag is kept as one custom line.
pub proof fn other_tokens_are_kept_together(values: ValuesSpec, list: Seq<Seq<char>>)
    requires
        list.len() > 0,
        list[0].len() == 0 || list[0][0] != '-' || list[0].len() == 1,
    ensures
        param_values::read_tokens(values, list) == (ValuesSpec {
            values: values.values,
            custom: values.custom + seq![text::join(list, seq![' '])],
        }),
        param_values::read_tokens(values, Seq::empty()) == values,
{
    reveal_strlit("-");
    let line = text::join(list, seq![' ']);
    if list[0].len() == 1 && list[0][0] == '-' {
        assert(list[0] =~= "-"@);
    }
    assert(values.custom.push(line) =~= values.custom + seq![line]);
}

/// Whether no token sets the port.
pub open spec fn sets_no_port(list: Seq<Seq<char>>) -> bool {
    forall|k: int|
        0 <= k < list.len() ==> #[trigger] list[k] != "--port"@ && !text::starts_with(
            list[k],
            "--port="@,
        )
}

/// Lines are read in turn, each without the token that sets the port and the token behind
/// it; every other token is read.
pub proof fn lines_are_read_without_the_port(
    values: ValuesSpec,
    lines: Seq<Seq<Seq<char>>>,
    head: Seq<Seq<char>>,
    port: Seq<char>,
    tail: Seq<Seq<char>>,
)
    requires
        sets_no_port(head),
        sets_no_port(tail),
    ensures
        ({
            let before = param_values::read_lines(values, lines);
            let kept = param_values::read_tokens(before, head + tail);
            let cut = param_values::read_tokens(before, head);
            &&& param_values::read_lines(values, lines.push(head)) == cut
            &&& param_values::read_lines(values, lines.push(head + seq!["--port"@, port] + tail))
                == kept
            &&& param_values::read_lines(
                values,
                lines.push(head + seq!["--port="@ + port] + tail),
            ) == kept
            &&& param_values::read_lines(values, lines.push(head + seq!["--port"@])) == cut
        }),
        param_values::read_lines(values, Seq::empty()) == values,
{
    let none = Seq::<Seq<char>>::empty();
    let pair = seq!["--port"@, port] + tail;
    let joined = seq!["--port="@ + port] + tail;
    let lone = seq!["--port"@];
    lemma_port_rest(head, pair);
    lemma_port_rest(head, joined);
    lemma_port_rest(head, lone);
    lemma_port_rest(head, none);
    lemma_port_rest(tail, none);
    assert(head + none =~= head && tail + none =~= tail);
    assert(pair.skip(2) =~= tail && pair[0] == "--port"@);
    reveal_strlit("--port");
    reveal_strlit("--port=");
    let token = "--port="@ + port;
    assert(joined[0] == token && joined.drop_first() =~= tail);
    assert(token.take(7) =~= "--port="@);
    assert(token != "--port"@) by {
        assert(token.len() >= 7 && "--port"@.len() == 6);
    }
    assert(param_values::without_port(none) =~= none);
    assert(param_values::without_port(lone) =~= none);
    assert(head + param_values::without_port(lone) =~= head);
    assert(head + seq!["--port"@, port] + tail =~= head + pair);
    assert(head + seq!["--port="@ + port] + tail =~= head + joined);
    lemma_last(values, lines, head);
    lemma_last(values, lines, head + pair);
    lemma_last(values, lines, head + joined);
    lemma_last(values, lines, head + lone);
}

proof fn lemma_last(values: ValuesSpec, lines: Seq<Seq<Seq<char>>>, line: Seq<Seq<char>>)
    ensures
        param_values::read_lines(values, lines.push(line)) == param_values::read_tokens(
            param_values::read_lines(values, lines),
            param_values::without_port(line),
        ),
{
    assert(lines.push(line).drop_last() =~= lines);
}

proof fn lemma_port_rest(head: Seq<Seq<char>>, rest: Seq<Seq<char>>)
    requires
        sets_no_port(head),
    ensures
        param_values::without_port(head + rest) == head + param_values::without_port(rest),
    decreases head.len(),
{
    let all = head + rest;
    if head.len() == 0 {
        assert(all =~= rest);
        assert(head + param_values::without_port(rest) =~= param_values::without_port(rest));
    } else {
        let later = head.drop_first();
        assert(head[0] != "--port"@ && !text::starts_with(head[0], "--port="@));
        assert forall|k: int| 0 <= k < later.len() implies #[trigger] later[k] != "--port"@
            && !text::starts_with(later[k], "--port="@) by {
            assert(later[k] == head[k + 1]);
        }
        lemma_port_rest(later, rest);
        assert(all[0] == head[0]);
        assert(all.drop_first() =~= later + rest);
        assert(seq![head[0]] + (later + param_values::without_port(rest)) =~= head
            + param_values::without_port(rest));
    }
}

/// Import starts from no values, whatever the state held before.
pub proof fn import_starts_afresh(
    state: BuilderSpec,
    binary: Seq<char>,
    lines: Seq<Seq<Seq<char>>>,
    model: Option<Seq<char>>,
    line: Seq<Seq<char>>,
)
    requires
        sets_no_port(line),
    ensures
        ({
            let none = state.imported(binary, Seq::empty(), model).values;
            &&& none.custom.len() == 0
            &&& none.values.len() == state.values.values.len()
            &&& forall|i: int|
                0 <= i < none.values.len() ==> #[trigger] none.values[i] == ValueSpec::Unset
            &&& state.imported(binary, lines.push(line), model).values
                == param_values::read_tokens(state.imported(binary, lines, model).values, line)
        }),
{
    let unset = ValuesSpec::unset(state.values.values.len());
    lines_are_read_without_the_port(unset, lines, line, Seq::empty(), Seq::empty());
}

/// The line that a value is written as: the flag, a space and the value; a toggle that is
/// on is its flag alone, and a text with white space stands in quotes.
pub open spec fn is_line_of(i: int, value: ValueSpec, lines: Seq<Seq<char>>) -> bool {
    let def = registry_table::flag_table()[i];
    match value {
        ValueSpec::Unset => lines.len() == 0,
        ValueSpec::On => lines == seq![
            if def.kind is TriState {
                def.flag + " on"@
            } else {
                def.flag
            },
        ],
        ValueSpec::Off => if def.kind is Toggle {
            lines.len() == 0
        } else {
            lines == seq![def.flag + " off"@]
        },
        ValueSpec::Integer(v) => lines == seq![def.flag + " "@ + number::decimal_int(v)],
        ValueSpec::Choice(n) => match def.kind {
            KindSpec::Choice(options) => if 0 <= n < options.len() {
                lines == seq![def.flag + " "@ + options[n]]
            } else {
                lines.len() == 0
            },
            _ => lines.len() == 0,
        },
        ValueSpec::Text(t) => {
            let word = text::trim(t);
            let spaced = exists|k: int| 0 <= k < word.len() && text::is_white(#[trigger] word[k]);
            if word.len() == 0 {
                lines.len() == 0
            } else if !spaced {
                lines == seq![def.flag + " "@ + word]
            } else if word.contains('"') && !word.contains('\'') {
                lines == seq![def.flag + " '"@ + word + "'"@]
            } else {
                lines == seq![def.flag + " \""@ + word + "\""@]
            }
        },
    }
}

/// The lines of one flag.
spec fn own_lines(i: int, value: ValueSpec) -> Seq<Seq<char>> {
    match param_values::value_line(registry_table::flag_table()[i], value) {
        Some(line) => seq![line],
        None => Seq::empty(),
    }
}

proof fn lemma_own_lines(i: int, value: ValueSpec)
    ensures
        is_line_of(i, value, own_lines(i, value)),
{
    reveal_strlit(" ");
    reveal_strlit(" '");
    reveal_strlit("'");
    reveal_strlit(" \"");
    reveal_strlit("\"");
    assert(" "@ =~= seq![' ']);
    let flag = registry_table::flag_table()[i].flag;
    match value {
        ValueSpec::Text(t) => {
            let word = text::trim(t);
            assert(flag + seq![' '] + (seq!['\''] + word + seq!['\'']) =~= flag + " '"@ + word
                + "'"@);
            assert(flag + seq![' '] + (seq!['"'] + word + seq!['"']) =~= flag + " \""@ + word
                + "\""@);
        },
        _ => {},
    }
}

/// The values before a position, and those behind it.
pub open spec fn values_before(values: Seq<ValueSpec>, i: int) -> Seq<ValueSpec> {
    Seq::new(
        values.len(),
        |k: int|
            if k < i {
                values[k]
            } else {
                ValueSpec::Unset
            },
    )
}

pub open spec fn values_behind(values: Seq<ValueSpec>, i: int) -> Seq<ValueSpec> {
    Seq::new(
        values.len(),
        |k: int|
            if k > i {
                values[k]
            } else {
                ValueSpec::Unset
            },
    )
}

/// The flags are written in the order of the registry: the line of a flag stands behind
/// those of the flags before it and before those of the flags behind it. The custom lines
/// come last.
pub proof fn flags_are_written_in_order(values: ValuesSpec, i: int) -> (own: Seq<Seq<char>>)
    requires
        0 <= i < REGISTRY_LEN,
        values.values.len() >= REGISTRY_LEN,
    ensures
        is_line_of(i, values.values[i], own),
        param_values::flag_lines(values) == param_values::flag_lines(
            ValuesSpec { values: values_before(values.values, i), custom: Seq::empty() },
        ) + own + param_values::flag_lines(
            ValuesSpec { values: values_behind(values.values, i), custom: values.custom },
        ),
{
    let all = values.values;
    let none = Seq::<Seq<char>>::empty();
    let n = REGISTRY_LEN as int;
    let before = values_before(all, i);
    let behind = values_behind(all, i);
    let own = own_lines(i, all[i]);
    lemma_own_lines(i, all[i]);
    lemma_lines_before(all, i, n);
    lemma_lines_behind(all, i, n);
    let a = param_values::value_lines(before, n);
    let b = param_values::value_lines(behind, n);
    let c = param_values::custom_lines(values.custom);
    assert(param_values::custom_lines(Seq::empty()) =~= none);
    assert(a + none =~= a);
    assert(a + own + b + c =~= a + own + (b + c));
    own
}

proof fn lemma_lines_before(values: Seq<ValueSpec>, i: int, n: int)
    requires
        0 <= i <= n <= values.len(),
    ensures
        param_values::value_lines(values_before(values, i), n) == param_values::value_lines(
            values,
            i,
        ),
    decreases n,
{
    if n > i {
        lemma_lines_before(values, i, n - 1);
    } else if n > 0 {
        lemma_same_lines(values_before(values, i), values, n);
    }
}

proof fn lemma_same_lines(a: Seq<ValueSpec>, b: Seq<ValueSpec>, n: int)
    requires
        0 <= n <= a.len(),
        n <= b.len(),
        forall|k: int| 0 <= k < n ==> a[k] == b[k],
    ensures
        param_values::value_lines(a, n) == param_values::value_lines(b, n),
    decreases n,
{
    if n > 0 {
        lemma_same_lines(a, b, n - 1);
    }
}

proof fn lemma_lines_behind(values: Seq<ValueSpec>, i: int, n: int)
    requires
        0 <= i < values.len(),
        0 <= n <= values.len(),
    ensures
        n <= i + 1 ==> param_values::value_lines(values_behind(values, i), n).len() == 0,
        n > i ==> param_values::value_lines(values, n) == param_values::value_lines(values, i)
            + own_lines(i, values[i]) + param_values::value_lines(values_behind(values, i), n),
    decreases n,
{
    let none = Seq::<Seq<char>>::empty();
    let behind = values_behind(values, i);
    if n > 0 {
        lemma_lines_behind(values, i, n - 1);
        let earlier = param_values::value_lines(values, i);
        let own = own_lines(i, values[i]);
        let rest = param_values::value_lines(behind, n);
        if n == i + 1 {
            assert(rest =~= none);
            assert(param_values::value_lines(values, n) =~= earlier + own + rest);
        } else if n > i + 1 {
            assert(param_values::value_lines(values, n) =~= earlier + own + rest);
        }
    }
}

/// Where nothing is set nothing is written; a custom line is written behind the others,
/// without the white space around it, and is left out where nothing else is in it.
pub proof fn custom_lines_are_written_last(
    values: ValuesSpec,
    before: Seq<char>,
    line: Seq<char>,
    after: Seq<char>,
)
    requires
        is_gap(before),
        is_core(line),
        is_gap(after),
    ensures
        param_values::flag_lines(
            ValuesSpec {
                values: values.values,
                custom: values.custom.push(before + line + after),
            },
        ) == if line.len() == 0 {
            param_values::flag_lines(values)
        } else {
            param_values::flag_lines(values).push(line)
        },
        values.custom.len() == 0 && values.values.len() >= REGISTRY_LEN && (forall|i: int|
            0 <= i < values.values.len() ==> #[trigger] values.values[i] == ValueSpec::Unset)
            ==> param_values::flag_lines(values).len() == 0,
{
    text_laws::gaps_are_trimmed(before, line, after);
    let longer = values.custom.push(before + line + after);
    assert(longer.drop_last() =~= values.custom);
    let lines = param_values::value_lines(values.values, REGISTRY_LEN as int);
    let custom = param_values::custom_lines(values.custom);
    assert(lines + custom.push(line) =~= (lines + custom).push(line));
    if values.custom.len() == 0 && values.values.len() >= REGISTRY_LEN && (forall|i: int|
        0 <= i < values.values.len() ==> #[trigger] values.values[i] == ValueSpec::Unset) {
        lemma_nothing_set(values.values, REGISTRY_LEN as int);
    }
}

proof fn lemma_nothing_set(values: Seq<ValueSpec>, n: int)
    requires
        0 <= n <= values.len(),
        forall|i: int| 0 <= i < values.len() ==> #[trigger] values[i] == ValueSpec::Unset,
    ensures
        param_values::value_lines(values, n).len() == 0,
    decreases n,
{
    if n > 0 {
        lemma_nothing_set(values, n - 1);
        assert(values[n - 1] == ValueSpec::Unset);
    }
}

/// What the list shows of a value tells it: a number in decimal, an option by its name, a
/// text as it is, and the states by three different words.
pub proof fn shown_values_can_be_told(i: int, v: int, n: int, t: Seq<char>)
    requires
        0 <= i < REGISTRY_LEN,
        -0x8000_0000_0000_0000 <= v <= 0x7fff_ffff_ffff_ffff,
    ensures
        ({
            let kind = registry_table::flag_table()[i].kind;
            let unset = param_registry::display_text(ValueSpec::Unset, kind);
            let on = param_registry::display_text(ValueSpec::On, kind);
            let off = param_registry::display_text(ValueSpec::Off, kind);
            &&& number::parse_signed(param_registry::display_text(ValueSpec::Integer(v), kind))
                == Some(v)
            &&& param_registry::display_text(ValueSpec::Text(t), kind) == t
            &&& kind is TriState ==> unset == "auto"@ && on == "ON"@ && off == "off"@
            &&& kind is Toggle ==> unset == "off"@ && on == "ON"@
            &&& match kind {
                KindSpec::Choice(options) => 0 <= n < options.len() ==> param_registry::display_text(
                    ValueSpec::Choice(n),
                    kind,
                ) == options[n] && param_registry::value_of_token(
                    kind,
                    param_registry::display_text(ValueSpec::Choice(n), kind),
                ) == Some(ValueSpec::Choice(n)),
                _ => true,
            }
        }),
{
    text_laws::signed_decimals_are_read(v);
    match registry_table::flag_table()[i].kind {
        KindSpec::Choice(options) => {
            if 0 <= n < options.len() {
                spelled_values_are_read(i, options[n], ValueSpec::Choice(n));
            }
        },
        _ => {},
    }
}

} // verus!
