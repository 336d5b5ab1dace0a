//! A command that was written out is read back as the state that it was written from.

use crate::param_registry;
use crate::param_registry::{DefSpec, KindSpec, ValueSpec, REGISTRY_LEN};
use crate::param_values;
use crate::param_values::ValuesSpec;
use crate::{block_laws, cmd_block, number, param_builder, registry_laws, registry_table};
use crate::{swap_yaml, text, token_laws};
use vstd::prelude::*;

verus! {

/// Whether no token but the last announces a model path.
pub open spec fn keeps_model(list: Seq<Seq<char>>) -> bool {
    forall|i: int| 0 <= i < list.len() - 1 ==> !swap_yaml::is_model_flag(#[trigger] list[i])
}

/// Whether no token sets the port.
pub open spec fn keeps_port(list: Seq<Seq<char>>) -> bool {
    forall|i: int|
        0 <= i < list.len() ==> !param_values::is_port_flag(#[trigger] list[i])
            && !param_values::is_port_setting(list[i])
}

/// Whether a text value, written out as one word, is read back as itself. White space
/// around it, quotes that cannot be told from those that are put around it, and words
/// that set the port are not.
pub open spec fn word_reads_back(t: Seq<char>) -> bool {
    let word = param_values::shell_word(text::trim(t));
    &&& text::trim(t).len() > 0
    &&& cmd_block::tokens(word) == seq![word]
    &&& cmd_block::without_quotes(word) == t
    &&& keeps_port(seq![word])
}

/// Whether a value is one that a flag can have.
pub open spec fn value_fits(def: DefSpec, value: ValueSpec) -> bool {
    match value {
        ValueSpec::Unset => true,
        ValueSpec::On => def.kind is Toggle || def.kind is TriState,
        ValueSpec::Off => def.kind is TriState,
        ValueSpec::Integer(v) => match def.kind {
            KindSpec::Integer { min, max, .. } => min <= v <= max,
            _ => false,
        },
        ValueSpec::Choice(i) => match def.kind {
            KindSpec::Choice(options) => 0 <= i < options.len(),
            _ => false,
        },
        ValueSpec::Text(t) => def.kind is Text,
    }
}

/// Whether a value is one that a flag can have and that is read back from its line.
pub open spec fn value_reads_back(def: DefSpec, value: ValueSpec) -> bool {
    value_fits(def, value) && match value {
        ValueSpec::Text(t) => word_reads_back(t),
        _ => true,
    }
}

/// Whether the tokens of one line are kept together as one custom line.
pub open spec fn is_custom_line(list: Seq<Seq<char>>) -> bool {
    let token = list[0];
    if !param_values::is_flag(token) {
        true
    } else {
        match text::split_once(token, '=') {
            Some((name, value)) => list.len() == 1 && (match param_registry::find_flag(name) {
                Some(i) => param_registry::value_of_token(
                    registry_table::flag_table()[i].kind,
                    cmd_block::without_quotes(value),
                ) is None,
                None => true,
            }),
            None => match param_registry::find_flag(token) {
                None => param_values::next_flag(list, 1) == list.len(),
                Some(i) => {
                    let kind = registry_table::flag_table()[i].kind;
                    !(kind is Toggle) && (list.len() == 1 || (list.len() == 2
                        && param_registry::value_of_token(
                        kind,
                        cmd_block::without_quotes(list[1]),
                    ) is None))
                },
            },
        }
    }
}

/// Whether a custom line is read back as itself: its tokens are separated by one space
/// each, name neither a model path nor the port, and are kept as one custom line.
pub open spec fn custom_reads_back(line: Seq<char>) -> bool {
    let list = cmd_block::tokens(text::trim(line));
    &&& list.len() > 0
    &&& line == text::join(list, seq![' '])
    &&& keeps_model(list)
    &&& keeps_port(list)
    &&& is_custom_line(list)
}

/// Whether an invocation is read back as itself: its tokens are separated by one space
/// each, and the last of them is the first that names a server.
pub open spec fn invocation_reads_back(binary: Seq<char>) -> bool {
    let list = cmd_block::tokens(text::trim(binary));
    &&& list.len() > 0
    &&& binary == text::join(list, seq![' '])
    &&& cmd_block::server_index(list) == list.len() - 1
}

/// Whether a model path is read back as itself: it is one word without quotes around it.
pub open spec fn model_reads_back(path: Seq<char>) -> bool {
    &&& cmd_block::tokens(text::trim("-m "@ + path)) == seq!["-m"@, path]
    &&& cmd_block::without_quotes(path) == path
}

/// Whether every value and every custom line is read back as itself.
pub open spec fn values_read_back(values: ValuesSpec) -> bool {
    &&& values.values.len() == REGISTRY_LEN
    &&& forall|i: int|
        0 <= i < REGISTRY_LEN ==> value_reads_back(
            registry_table::flag_table()[i],
            #[trigger] values.values[i],
        )
    &&& forall|k: int|
        0 <= k < values.custom.len() ==> custom_reads_back(#[trigger] values.custom[k])
}

/// Whether `s` holds neither white space nor quotes.
pub open spec fn is_bare(s: Seq<char>) -> bool {
    s.len() > 0 && forall|k: int|
        0 <= k < s.len() ==> !text::is_white(#[trigger] s[k]) && s[k] != '"' && s[k] != '\''
}

/// A bare text is one token, which closes its quotes.
pub proof fn lemma_bare_token(s: Seq<char>)
    requires
        is_bare(s),
    ensures
        token_laws::is_token(s),
        token_laws::is_closed(s),
        !text::is_white(s.last()),
        cmd_block::without_quotes(s) == s,
    decreases s.len(),
{
    let tail = s.drop_first();
    assert(!text::is_white(s[0]) && !text::is_white(s[s.len() - 1]));
    if s.len() == 1 {
        assert(tail =~= Seq::<char>::empty());
        reveal_with_fuel(cmd_block::token_len, 2);
        reveal_with_fuel(token_laws::quote_behind, 2);
    } else {
        assert forall|k: int| 0 <= k < tail.len() implies !text::is_white(#[trigger] tail[k])
            && tail[k] != '"' && tail[k] != '\'' by {
            assert(tail[k] == s[k + 1]);
        }
        lemma_bare_token(tail);
    }
}

pub proof fn lemma_without_model(list: Seq<Seq<char>>, found: Option<Seq<char>>)
    requires
        keeps_model(list),
    ensures
        cmd_block::without_model(list) == list,
        cmd_block::last_model(list, found) == found,
    decreases list.len(),
{
    if list.len() > 0 {
        let rest = list.drop_first();
        assert forall|i: int| 0 <= i < rest.len() - 1 implies !swap_yaml::is_model_flag(
            #[trigger] rest[i],
        ) by {
            assert(rest[i] == list[i + 1]);
        }
        lemma_without_model(rest, found);
        if list.len() >= 2 {
            assert(!swap_yaml::is_model_flag(list[0]));
        }
        assert(seq![list[0]] + rest =~= list);
    } else {
        assert(cmd_block::without_model(list) =~= list);
    }
}

pub proof fn lemma_without_port(list: Seq<Seq<char>>)
    requires
        keeps_port(list),
    ensures
        param_values::without_port(list) == list,
    decreases list.len(),
{
    if list.len() > 0 {
        let rest = list.drop_first();
        assert forall|i: int| 0 <= i < rest.len() implies !param_values::is_port_flag(
            #[trigger] rest[i],
        ) && !param_values::is_port_setting(rest[i]) by {
            assert(rest[i] == list[i + 1]);
        }
        lemma_without_port(rest);
        assert(!param_values::is_port_flag(list[0]));
        assert(seq![list[0]] + rest =~= list);
    } else {
        assert(param_values::without_port(list) =~= list);
    }
}

/// Two tokens of which the first is bare are read back from a line.
pub proof fn lemma_pair_reads(flag: Seq<char>, word: Seq<char>)
    requires
        is_bare(flag),
        token_laws::is_token(word),
        !text::is_white(word.last()),
    ensures
        cmd_block::tokens(text::trim(flag + seq![' '] + word)) == seq![flag, word],
        text::trim(flag + seq![' '] + word) == flag + seq![' '] + word,
        !cmd_block::is_blank(flag + seq![' '] + word),
{
    let list = seq![flag, word];
    lemma_bare_token(flag);
    token_laws::joined_tokens_read_back(list);
    reveal_with_fuel(text::join, 3);
    assert(list.drop_first() =~= seq![word]);
    assert(text::join(list, seq![' ']) =~= flag + seq![' '] + word);
}

/// A flag of the registry is one bare token, found under its own name, and is none of
/// the flags that the router manages.
pub proof fn lemma_flag(i: int)
    requires
        0 <= i < REGISTRY_LEN,
    ensures
        ({
            let flag = registry_table::flag_table()[i].flag;
            &&& is_bare(flag)
            &&& flag.len() >= 2
            &&& text::starts_with_char(flag, '-')
            &&& flag != "-"@
            &&& text::split_once(flag, '=') is None
            &&& param_registry::find_flag(flag) == Some(i)
            &&& !swap_yaml::is_model_flag(flag)
            &&& !param_values::is_port_flag(flag)
            &&& !param_values::is_port_setting(flag)
        }),
{
    let def = registry_table::flag_table()[i];
    let flag = def.flag;
    registry_laws::registry_is_well_formed(i);
    registry_laws::every_spelling_is_found(i, 0);
    registry_laws::known_flags_are_plain(flag);
    registry_laws::managed_flags_are_unknown();
    assert(registry_laws::spelling(def, 0) == flag);
    assert forall|k: int| 0 <= k < flag.len() implies !text::is_white(#[trigger] flag[k])
        && flag[k] != '"' && flag[k] != '\'' && flag[k] != '=' by {
        assert(registry_laws::is_plain_char(flag[k]));
    }
    text::lemma_before(flag, '=');
    reveal_strlit("-");
    reveal_strlit("--");
    assert(flag.take(2).len() == 2);
    reveal_strlit("--port=");
    assert(!param_values::is_port_setting(flag)) by {
        if param_values::is_port_setting(flag) {
            assert(flag[6] == flag.take(7)[6]);
        }
    }
}

proof fn lemma_digits_bare(digits: Seq<char>)
    requires
        digits.len() > 0,
        number::all_digits(digits),
    ensures
        is_bare(digits),
{
    assert forall|k: int| 0 <= k < digits.len() implies !text::is_white(#[trigger] digits[k])
        && digits[k] != '"' && digits[k] != '\'' by {
        assert(number::is_digit(digits[k]));
    }
}

/// A number is one bare token that looks like no flag of the router.
pub proof fn lemma_decimal_word(v: int)
    ensures
        is_bare(number::decimal_int(v)),
        keeps_port(seq![number::decimal_int(v)]),
{
    let word = number::decimal_int(v);
    reveal_strlit("--port");
    reveal_strlit("--port=");
    let digits = if v < 0 {
        number::decimal((-v) as nat)
    } else {
        number::decimal(v as nat)
    };
    number::lemma_decimal_value(if v < 0 {
        (-v) as nat
    } else {
        v as nat
    });
    lemma_digits_bare(digits);
    assert(number::is_digit(digits[0]));
    if v < 0 {
        assert(word =~= seq!['-'] + digits);
        assert forall|k: int| 0 <= k < word.len() implies !text::is_white(#[trigger] word[k])
            && word[k] != '"' && word[k] != '\'' by {
            if k > 0 {
                assert(word[k] == digits[k - 1]);
            }
        }
        assert(word[1] == digits[0]);
    }
    if param_values::is_port_setting(word) {
        assert(word[0] == word.take(7)[0] && word[1] == word.take(7)[1]);
    }
}

/// A word that does not start with a dash sets no port.
proof fn lemma_plain_word_keeps_port(word: Seq<char>)
    requires
        word.len() > 0,
        word[0] != '-',
    ensures
        keeps_port(seq![word]),
{
    reveal_strlit("--port");
    reveal_strlit("--port=");
    if param_values::is_port_setting(word) {
        assert(word[0] == word.take(7)[0]);
    }
}

/// Reading a flag and the word of its value stores the value.
proof fn lemma_pair_is_stored(i: int, word: Seq<char>, value: ValueSpec, values: ValuesSpec)
    requires
        0 <= i < REGISTRY_LEN,
        keeps_port(seq![word]),
        !(registry_table::flag_table()[i].kind is Toggle),
        param_registry::value_of_token(
            registry_table::flag_table()[i].kind,
            cmd_block::without_quotes(word),
        ) == Some(value),
    ensures
        ({
            let list = seq![registry_table::flag_table()[i].flag, word];
            &&& keeps_model(list)
            &&& keeps_port(list)
            &&& param_values::read_tokens(values, param_values::without_port(list))
                == values.with_value(i, value)
        }),
{
    let flag = registry_table::flag_table()[i].flag;
    let list = seq![flag, word];
    lemma_flag(i);
    assert(!param_values::is_port_flag(seq![word][0]));
    lemma_without_port(list);
    assert(list.drop_first() =~= seq![word]);
    assert(list.drop_first().drop_first() =~= Seq::<Seq<char>>::empty());
    assert(param_values::read_tokens(
        values.with_value(i, value),
        list.drop_first().drop_first(),
    ) == values.with_value(i, value));
}

/// The line of a value that is read back stores the value.
proof fn lemma_value_line_reads(i: int, value: ValueSpec, values: ValuesSpec)
    requires
        0 <= i < REGISTRY_LEN,
        value_reads_back(registry_table::flag_table()[i], value),
    ensures
        match param_values::value_line(registry_table::flag_table()[i], value) {
            Some(line) => {
                let list = cmd_block::tokens(text::trim(line));
                &&& list.len() > 0
                &&& keeps_model(list)
                &&& keeps_port(list)
                &&& param_values::read_tokens(values, param_values::without_port(list))
                    == values.with_value(i, value)
            },
            None => value is Unset,
        },
{
    let def = registry_table::flag_table()[i];
    let flag = def.flag;
    lemma_flag(i);
    registry_laws::registry_is_well_formed(i);
    match value {
        ValueSpec::Unset => {},
        ValueSpec::On => {
            if def.kind is TriState {
                reveal_strlit("on");
                reveal_strlit(" on");
                let word = "on"@;
                assert(flag + " on"@ =~= flag + seq![' '] + word);
                assert(is_bare(word));
                lemma_bare_token(word);
                lemma_pair_reads(flag, word);
                lemma_plain_word_keeps_port(word);
                lemma_pair_is_stored(i, word, value, values);
            } else {
                let list = seq![flag];
                lemma_bare_token(flag);
                token_laws::joined_tokens_read_back(list);
                assert(text::join(list, seq![' ']) == flag);
                lemma_without_port(list);
                assert(list.drop_first() =~= Seq::<Seq<char>>::empty());
                assert(param_values::read_tokens(
                    values.with_value(i, value),
                    list.drop_first(),
                ) == values.with_value(i, value));
            }
        },
        ValueSpec::Off => {
            reveal_strlit("on");
            reveal_strlit("off");
            reveal_strlit(" off");
            let word = "off"@;
            assert(flag + " off"@ =~= flag + seq![' '] + word);
            assert(word.len() != "on"@.len());
            assert(is_bare(word));
            lemma_bare_token(word);
            lemma_pair_reads(flag, word);
            lemma_plain_word_keeps_port(word);
            lemma_pair_is_stored(i, word, value, values);
        },
        ValueSpec::Integer(v) => {
            let word = number::decimal_int(v);
            lemma_decimal_word(v);
            number::lemma_parse_signed_of_decimal_int(v);
            lemma_bare_token(word);
            lemma_pair_reads(flag, word);
            lemma_pair_is_stored(i, word, value, values);
        },
        ValueSpec::Choice(k) => {
            let options = def.kind->0;
            let word = options[k];
            assert(registry_laws::is_plain(word) && word[0] != '-');
            assert forall|j: int| 0 <= j < word.len() implies !text::is_white(#[trigger] word[j])
                && word[j] != '"' && word[j] != '\'' by {
                assert(registry_laws::is_plain_char(word[j]));
            }
            lemma_bare_token(word);
            lemma_pair_reads(flag, word);
            lemma_plain_word_keeps_port(word);
            param_registry::lemma_option_index_is(options, word, k);
            lemma_pair_is_stored(i, word, value, values);
        },
        ValueSpec::Text(t) => {
            let kept = text::trim(t);
            let word = param_values::shell_word(kept);
            text::lemma_trim_end(text::trim_start(t));
            assert(!text::is_white(word.last()));
            lemma_single_token(word);
            lemma_pair_reads(flag, word);
            lemma_pair_is_stored(i, word, value, values);
        },
    }
}

/// A word that is its own only token is one token.
proof fn lemma_single_token(word: Seq<char>)
    requires
        cmd_block::tokens(word) == seq![word],
    ensures
        token_laws::is_token(word),
{
    let rest = text::trim_start(word);
    text::lemma_trim_start(word);
    assert(cmd_block::tokens(word).len() == 1);
    let n = cmd_block::token_len(rest, None) as int;
    cmd_block::lemma_token_len_bound(rest, None);
    assert(cmd_block::tokens(word)[0] == rest.take(n));
    assert(rest.take(n).len() == word.len());
    assert(rest =~= word);
}

proof fn lemma_body_tokens_push(body: Seq<Seq<char>>, line: Seq<char>)
    ensures
        block_laws::body_tokens(body.push(line)) == block_laws::body_tokens(body).push(
            cmd_block::tokens(text::trim(line)),
        ),
{
    assert(block_laws::body_tokens(body.push(line)) =~= block_laws::body_tokens(body).push(
        cmd_block::tokens(text::trim(line)),
    ));
}

/// The first `n` of the values, and no value for the other flags.
spec fn first_values(values: Seq<ValueSpec>, n: int) -> ValuesSpec {
    ValuesSpec {
        values: Seq::new(
            values.len(),
            |i: int|
                if i < n {
                    values[i]
                } else {
                    ValueSpec::Unset
                },
        ),
        custom: Seq::empty(),
    }
}

/// Whether token lines come through the lifting of the model path unchanged.
pub open spec fn keep_model(list: Seq<Seq<Seq<char>>>) -> bool {
    forall|i: int| 0 <= i < list.len() ==> (#[trigger] list[i]).len() > 0 && keeps_model(list[i])
}

/// The lines of the values store the values.
proof fn lemma_value_lines_read(values: Seq<ValueSpec>, n: int)
    requires
        values.len() == REGISTRY_LEN,
        0 <= n <= REGISTRY_LEN,
        forall|i: int|
            0 <= i < REGISTRY_LEN ==> value_reads_back(
                registry_table::flag_table()[i],
                #[trigger] values[i],
            ),
    ensures
        ({
            let list = block_laws::body_tokens(param_values::value_lines(values, n));
            &&& keep_model(list)
            &&& param_values::read_lines(ValuesSpec::unset(REGISTRY_LEN as nat), list)
                == first_values(values, n)
        }),
    decreases n,
{
    let unset = ValuesSpec::unset(REGISTRY_LEN as nat);
    let lines = param_values::value_lines(values, n);
    let list = block_laws::body_tokens(lines);
    if n == 0 {
        assert(list =~= Seq::<Seq<Seq<char>>>::empty());
        assert(first_values(values, 0).values =~= unset.values);
    } else {
        lemma_value_lines_read(values, n - 1);
        let earlier = param_values::value_lines(values, n - 1);
        let value = values[n - 1];
        let before = first_values(values, n - 1);
        lemma_value_line_reads(n - 1, value, before);
        match param_values::value_line(registry_table::flag_table()[n - 1], value) {
            Some(line) => {
                lemma_body_tokens_push(earlier, line);
                let tokens = cmd_block::tokens(text::trim(line));
                assert(list.drop_last() =~= block_laws::body_tokens(earlier));
                assert(list.last() == tokens);
                assert(before.values.update(n - 1, value) =~= first_values(values, n).values);
                assert forall|i: int| 0 <= i < list.len() implies (#[trigger] list[i]).len() > 0
                    && keeps_model(list[i]) by {
                    if i < list.len() - 1 {
                        assert(list[i] == block_laws::body_tokens(earlier)[i]);
                    }
                }
            },
            None => {
                assert(before.values =~= first_values(values, n).values);
            },
        }
    }
}

/// The tokens of a custom line that is read back are kept as that line.
proof fn lemma_custom_line_reads(line: Seq<char>, values: ValuesSpec)
    requires
        custom_reads_back(line),
    ensures
        text::trim(line) == line,
        line.len() > 0,
        param_values::read_tokens(
            values,
            param_values::without_port(cmd_block::tokens(text::trim(line))),
        ) == values.with_custom(line),
{
    let list = cmd_block::tokens(text::trim(line));
    text::lemma_trim_end(text::trim_start(line));
    token_laws::tokens_are_line_tokens(text::trim(line));
    token_laws::joined_tokens_read_back(list);
    lemma_without_port(list);
    let token = list[0];
    let rest = list.drop_first();
    if param_values::is_flag(token) {
        if text::split_once(token, '=') is Some {
            let (name, value) = text::split_once(token, '=')->0;
            assert(list.len() == 1);
            assert(rest =~= Seq::<Seq<char>>::empty());
            assert(line == token);
            assert(param_values::read_tokens(
                param_values::read_assignment(values, token, name, value),
                rest,
            ) == values.with_custom(line));
        } else if param_registry::find_flag(token) is Some {
            if list.len() == 1 {
                assert(rest =~= Seq::<Seq<char>>::empty());
                assert(line == token);
            } else {
                reveal_with_fuel(text::join, 3);
                assert(rest =~= seq![list[1]]);
                assert(line =~= token + seq![' '] + list[1]);
                assert(rest.drop_first() =~= Seq::<Seq<char>>::empty());
                assert(param_values::read_tokens(values.with_custom(line), rest.drop_first())
                    == values.with_custom(line));
            }
        } else {
            let n = list.len() as int;
            assert(list.take(n) =~= list);
            assert(list.skip(n) =~= Seq::<Seq<char>>::empty());
            assert(param_values::read_tokens(values.with_custom(line), list.skip(n))
                == values.with_custom(line));
        }
    }
}

/// The custom lines are kept, in order.
proof fn lemma_custom_lines_read(custom: Seq<Seq<char>>, values: ValuesSpec)
    requires
        forall|k: int| 0 <= k < custom.len() ==> custom_reads_back(#[trigger] custom[k]),
    ensures
        ({
            let list = block_laws::body_tokens(param_values::custom_lines(custom));
            &&& keep_model(list)
            &&& param_values::read_lines(values, list) == (ValuesSpec {
                custom: values.custom + custom,
                ..values
            })
        }),
    decreases custom.len(),
{
    let lines = param_values::custom_lines(custom);
    let list = block_laws::body_tokens(lines);
    if custom.len() == 0 {
        assert(list =~= Seq::<Seq<Seq<char>>>::empty());
        assert(values.custom + custom =~= values.custom);
    } else {
        let shorter = custom.drop_last();
        let line = custom.last();
        assert(custom_reads_back(custom[custom.len() - 1]));
        assert forall|k: int| 0 <= k < shorter.len() implies custom_reads_back(
            #[trigger] shorter[k],
        ) by {
            assert(shorter[k] == custom[k]);
        }
        lemma_custom_lines_read(shorter, values);
        let before = ValuesSpec { custom: values.custom + shorter, ..values };
        lemma_custom_line_reads(line, before);
        let earlier = param_values::custom_lines(shorter);
        lemma_body_tokens_push(earlier, line);
        assert(list.drop_last() =~= block_laws::body_tokens(earlier));
        assert((values.custom + shorter).push(line) =~= values.custom + custom);
        assert forall|i: int| 0 <= i < list.len() implies (#[trigger] list[i]).len() > 0
            && keeps_model(list[i]) by {
            if i < list.len() - 1 {
                assert(list[i] == block_laws::body_tokens(earlier)[i]);
            }
        }
    }
}

pub proof fn lemma_read_lines_concat(
    values: ValuesSpec,
    a: Seq<Seq<Seq<char>>>,
    b: Seq<Seq<Seq<char>>>,
)
    ensures
        param_values::read_lines(values, a + b) == param_values::read_lines(
            param_values::read_lines(values, a),
            b,
        ),
    decreases b.len(),
{
    if b.len() == 0 {
        assert(a + b =~= a);
    } else {
        lemma_read_lines_concat(values, a, b.drop_last());
        assert((a + b).drop_last() =~= a + b.drop_last());
    }
}

/// Token lines without model flags are neither changed nor dropped when the model path is
/// lifted out.
pub proof fn lemma_lift_concat(a: Seq<Seq<Seq<char>>>, b: Seq<Seq<Seq<char>>>)
    requires
        keep_model(b),
    ensures
        cmd_block::flag_tokens(a + b) == cmd_block::flag_tokens(a) + b,
        cmd_block::model_of(a + b) == cmd_block::model_of(a),
    decreases b.len(),
{
    if b.len() == 0 {
        assert(a + b =~= a);
        assert(cmd_block::flag_tokens(a) + b =~= cmd_block::flag_tokens(a));
    } else {
        let shorter = b.drop_last();
        assert forall|i: int| 0 <= i < shorter.len() implies (#[trigger] shorter[i]).len() > 0
            && keeps_model(shorter[i]) by {
            assert(shorter[i] == b[i]);
        }
        lemma_lift_concat(a, shorter);
        assert((a + b).drop_last() =~= a + shorter);
        assert(b[b.len() - 1].len() > 0 && keeps_model(b[b.len() - 1]));
        lemma_without_model(b.last(), cmd_block::model_of(a));
        assert((cmd_block::flag_tokens(a) + shorter).push(b.last()) =~= cmd_block::flag_tokens(a)
            + b);
    }
}

proof fn lemma_keep_model_concat(a: Seq<Seq<Seq<char>>>, b: Seq<Seq<Seq<char>>>)
    requires
        keep_model(a),
        keep_model(b),
    ensures
        keep_model(a + b),
{
    let all = a + b;
    assert forall|i: int| 0 <= i < all.len() implies (#[trigger] all[i]).len() > 0 && keeps_model(
        all[i],
    ) by {
        if i < a.len() {
            assert(all[i] == a[i]);
        } else {
            assert(all[i] == b[i - a.len()]);
        }
    }
}

/// An invocation on the first line is the invocation of the command, and nothing else
/// stands on that line.
proof fn lemma_written_invocation(binary: Seq<char>, list: Seq<Seq<Seq<char>>>)
    requires
        invocation_reads_back(binary),
        list.len() > 0,
        list[0] == cmd_block::tokens(text::trim(binary)),
    ensures
        cmd_block::invocation(list) == binary,
        param_builder::binary_or_default(binary) == binary,
        cmd_block::arguments(list) == seq![Seq::<Seq<char>>::empty()] + list.drop_first(),
{
    let first = list[0];
    text::lemma_trim_end(text::trim_start(binary));
    token_laws::tokens_are_line_tokens(text::trim(binary));
    token_laws::joined_tokens_read_back(first);
    assert(cmd_block::server_line(list) == 0);
    assert(list.take(0) =~= Seq::<Seq<Seq<char>>>::empty());
    assert(cmd_block::all_tokens(list.take(0)) + first.take(first.len() as int) =~= first);
    assert(first.skip(first.len() as int) =~= Seq::<Seq<char>>::empty());
    assert(list.skip(1) =~= list.drop_first());
}

/// The line that hands the port to the router is one that import passes over.
proof fn lemma_port_line()
    ensures
        cmd_block::tokens(text::trim("--port ${PORT}"@)) == seq!["--port"@, "${PORT}"@],
        !cmd_block::is_blank("--port ${PORT}"@),
        keeps_model(seq!["--port"@, "${PORT}"@]),
        param_values::without_port(seq!["--port"@, "${PORT}"@]) == Seq::<Seq<char>>::empty(),
{
    reveal_strlit("--port ${PORT}");
    reveal_strlit("--port");
    reveal_strlit("${PORT}");
    reveal_strlit("-m");
    reveal_strlit("--model");
    let flag = "--port"@;
    let word = "${PORT}"@;
    assert("--port ${PORT}"@ =~= flag + seq![' '] + word);
    assert(is_bare(flag));
    assert(is_bare(word));
    lemma_bare_token(word);
    lemma_pair_reads(flag, word);
    assert(flag.len() != "-m"@.len());
    assert(flag.len() != "--model"@.len());
    assert(seq![flag, word].skip(2) =~= Seq::<Seq<char>>::empty());
    reveal_with_fuel(param_values::without_port, 2);
}

/// The parts of a written command are the state that it was written from: the
/// invocation, the model path, and, once the flags are imported, the values.
pub proof fn written_command_reads_back(
    binary: Seq<char>,
    model_path: Option<Seq<char>>,
    values: ValuesSpec,
)
    requires
        invocation_reads_back(binary),
        model_path is Some ==> model_reads_back(model_path->0),
        values_read_back(values),
    ensures
        ({
            let body = param_builder::body_lines(binary, model_path, values);
            let parts = cmd_block::command_parts(block_laws::body_tokens(body));
            &&& parts.0 == binary
            &&& param_builder::binary_or_default(parts.0) == binary
            &&& parts.2 == model_path
            &&& param_values::read_lines(ValuesSpec::unset(REGISTRY_LEN as nat), parts.1)
                == values
            &&& body.len() > 0
            &&& !cmd_block::is_blank(body.last())
        }),
{
    let unset = ValuesSpec::unset(REGISTRY_LEN as nat);
    let first = cmd_block::tokens(text::trim(binary));
    let model = match model_path {
        Some(path) => seq!["-m "@ + path],
        None => Seq::empty(),
    };
    let set = param_values::value_lines(values.values, REGISTRY_LEN as int);
    let custom = param_values::custom_lines(values.custom);
    let port = seq!["--port"@, "${PORT}"@];
    let body = param_builder::body_lines(binary, model_path, values);
    let list = block_laws::body_tokens(body);
    lemma_port_line();
    assert(body.last() == "--port ${PORT}"@);
    let flags = block_laws::body_tokens(set) + block_laws::body_tokens(custom) + seq![port];
    let head = seq![first] + block_laws::body_tokens(model);
    assert(list =~= head + flags);

    // The invocation is the first line.
    assert(list[0] == first);
    lemma_written_invocation(binary, list);

    // The rest is lifted and read line by line.
    let none = Seq::<Seq<char>>::empty();
    let lead = seq![none] + block_laws::body_tokens(model);
    assert(cmd_block::arguments(list) =~= lead + flags);
    lemma_value_lines_read(values.values, REGISTRY_LEN as int);
    lemma_custom_lines_read(values.custom, first_values(values.values, REGISTRY_LEN as int));
    lemma_keep_model_concat(block_laws::body_tokens(set), block_laws::body_tokens(custom));
    lemma_keep_model_concat(
        block_laws::body_tokens(set) + block_laws::body_tokens(custom),
        seq![port],
    );
    lemma_lift_concat(lead, flags);
    lemma_lead(model_path);
    assert(cmd_block::flag_tokens(lead) + flags =~= flags);
    let stored = block_laws::body_tokens(set) + block_laws::body_tokens(custom);
    lemma_read_lines_concat(unset, block_laws::body_tokens(set), block_laws::body_tokens(custom));
    lemma_read_lines_concat(unset, stored, seq![port]);
    assert(seq![port].drop_last() =~= Seq::<Seq<Seq<char>>>::empty());
    reveal_with_fuel(param_values::read_lines, 2);
    let whole = first_values(values.values, REGISTRY_LEN as int);
    assert(whole.values =~= values.values);
    assert(whole.custom + values.custom =~= values.custom);
}

/// The lines before the flags give the model path and no flags.
proof fn lemma_lead(model_path: Option<Seq<char>>)
    requires
        model_path is Some ==> model_reads_back(model_path->0),
    ensures
        ({
            let model = match model_path {
                Some(path) => seq!["-m "@ + path],
                None => Seq::empty(),
            };
            let lead = seq![Seq::<Seq<char>>::empty()] + block_laws::body_tokens(model);
            &&& cmd_block::flag_tokens(lead) == Seq::<Seq<Seq<char>>>::empty()
            &&& cmd_block::model_of(lead) == model_path
        }),
{
    let none = Seq::<Seq<char>>::empty();
    let start = seq![none];
    assert(start.drop_last() =~= Seq::<Seq<Seq<char>>>::empty());
    reveal_with_fuel(cmd_block::flag_tokens, 2);
    reveal_with_fuel(cmd_block::model_of, 2);
    assert(cmd_block::flag_tokens(start) =~= Seq::<Seq<Seq<char>>>::empty());
    assert(cmd_block::model_of(start) is None);
    match model_path {
        Some(path) => {
            let pair = seq!["-m"@, path];
            let lead = start + block_laws::body_tokens(seq!["-m "@ + path]);
            assert(lead =~= start.push(pair));
            assert(lead.drop_last() =~= start);
            assert(pair.skip(2) =~= none);
            reveal_with_fuel(cmd_block::without_model, 2);
            reveal_with_fuel(cmd_block::last_model, 2);
        },
        None => {
            assert(start + block_laws::body_tokens(Seq::<Seq<char>>::empty()) =~= start);
        },
    }
}

/// Inside a quote, characters other than the quote are passed over.
proof fn lemma_quoted_len(s: Seq<char>, quote: char)
    requires
        !s.contains(quote),
    ensures
        cmd_block::token_len(s + seq![quote], Some(quote)) == s.len() + 1,
    decreases s.len(),
{
    let all = s + seq![quote];
    if s.len() == 0 {
        assert(all.drop_first() =~= Seq::<char>::empty());
        reveal_with_fuel(cmd_block::token_len, 2);
    } else {
        let rest = s.drop_first();
        assert(s.contains(s[0]));
        assert(!rest.contains(quote)) by {
            if rest.contains(quote) {
                let i = choose|i: int| 0 <= i < rest.len() && rest[i] == quote;
                assert(s[i + 1] == quote);
            }
        }
        lemma_quoted_len(rest, quote);
        assert(all.drop_first() =~= rest + seq![quote]);
    }
}

/// A trimmed text with white space that does not hold both kinds of quotes is written as
/// one word, which is read back as that text.
pub proof fn quoted_text_reads_back(t: Seq<char>)
    requires
        text::trim(t) == t,
        param_values::has_white(t),
        !(t.contains('"') && t.contains('\'')),
    ensures
        word_reads_back(t),
{
    let quote = if t.contains('"') {
        '\''
    } else {
        '"'
    };
    let word = param_values::shell_word(t);
    assert(word =~= seq![quote] + t + seq![quote]);
    assert(word.drop_first() =~= t + seq![quote]);
    lemma_quoted_len(t, quote);
    assert(cmd_block::token_len(word, None) == word.len());
    assert(text::trim_start(word) == word);
    assert(word.take(word.len() as int) =~= word);
    assert(word.skip(word.len() as int) =~= Seq::<char>::empty());
    assert(cmd_block::tokens(Seq::<char>::empty()) =~= Seq::<Seq<char>>::empty());
    assert(cmd_block::tokens(word) =~= seq![word]);
    assert(word.subrange(1, word.len() - 1) =~= t);
    lemma_plain_word_keeps_port(word);
}

/// A text without white space and quotes is written as it is, and is read back as that
/// text unless it sets the port.
pub proof fn bare_text_reads_back(t: Seq<char>)
    requires
        is_bare(t),
        keeps_port(seq![t]),
    ensures
        word_reads_back(t),
{
    lemma_bare_token(t);
    assert(!text::is_white(t[0]) && !text::is_white(t[t.len() - 1]));
    assert(text::trim(t) == t);
    assert(!param_values::has_white(t));
    token_laws::joined_tokens_read_back(seq![t]);
    assert(text::join(seq![t], seq![' ']) == t);
}

} // verus!
