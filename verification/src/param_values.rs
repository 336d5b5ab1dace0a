//! The editable values of a flag set: one value per registry flag plus free-form custom
//! flag lines, written out as command lines and read back from tokens.

use crate::param_registry;
use crate::param_registry::{
    DefSpec,
    KindSpec,
    ParamDef,
    ParamKind,
    ParamValue,
    ValueSpec,
    REGISTRY_LEN,
};
use crate::{cmd_block, number, registry_table, text};
use vstd::prelude::*;

verus! {

/// Full editable parameter state: one value per registry entry plus free-form custom
/// flag lines.
#[derive(Debug, Clone, Default, PartialEq)]
pub struct ParamValues {
    pub values: Vec<ParamValue>,
    pub custom: Vec<String>,
}

/// What a `ParamValues` holds, with texts as character sequences.
pub struct ValuesSpec {
    pub values: Seq<ValueSpec>,
    pub custom: Seq<Seq<char>>,
}

impl View for ParamValues {
    type V = ValuesSpec;

    open spec fn view(&self) -> ValuesSpec {
        ValuesSpec { values: text::views(self.values@), custom: text::views(self.custom@) }
    }
}

impl ValuesSpec {
    /// No value set, for `n` flags.
    pub open spec fn unset(n: nat) -> ValuesSpec {
        ValuesSpec { values: Seq::new(n, |i: int| ValueSpec::Unset), custom: Seq::empty() }
    }

    /// With `value` for the flag at position `i`.
    pub open spec fn with_value(self, i: int, value: ValueSpec) -> ValuesSpec {
        ValuesSpec { values: self.values.update(i, value), ..self }
    }

    /// With one more custom line.
    pub open spec fn with_custom(self, line: Seq<char>) -> ValuesSpec {
        ValuesSpec { custom: self.custom.push(line), ..self }
    }
}

/// Whether `s` holds white space.
pub open spec fn has_white(s: Seq<char>) -> bool {
    exists|i: int| 0 <= i < s.len() && text::is_white(#[trigger] s[i])
}

/// A text as one word of a shell line: in quotes where it holds white space, in single
/// quotes where it holds double quotes only.
pub open spec fn shell_word(s: Seq<char>) -> Seq<char> {
    if !has_white(s) {
        s
    } else if s.contains('"') && !s.contains('\'') {
        seq!['\''] + s + seq!['\'']
    } else {
        seq!['"'] + s + seq!['"']
    }
}

/// The command line for one flag with a value; none where the value is not set, is an
/// option that the flag does not have, or is blank text. A toggle is written out only when
/// it is switched on.
pub open spec fn value_line(def: DefSpec, value: ValueSpec) -> Option<Seq<char>> {
    match value {
        ValueSpec::Unset => None,
        ValueSpec::On => Some(
            if def.kind is TriState {
                def.flag + " on"@
            } else {
                def.flag
            },
        ),
        ValueSpec::Off => if def.kind is Toggle {
            None
        } else {
            Some(def.flag + " off"@)
        },
        ValueSpec::Integer(v) => Some(def.flag + seq![' '] + number::decimal_int(v)),
        ValueSpec::Choice(i) => match def.kind {
            KindSpec::Choice(options) => if 0 <= i < options.len() {
                Some(def.flag + seq![' '] + options[i])
            } else {
                None
            },
            _ => None,
        },
        ValueSpec::Text(t) => if text::trim(t).len() == 0 {
            None
        } else {
            Some(def.flag + seq![' '] + shell_word(text::trim(t)))
        },
    }
}

/// The command lines for the first `n` flags, in registry order.
pub open spec fn value_lines(values: Seq<ValueSpec>, n: int) -> Seq<Seq<char>>
    decreases n,
{
    if n <= 0 {
        Seq::empty()
    } else {
        let earlier = value_lines(values, n - 1);
        match value_line(registry_table::flag_table()[n - 1], values[n - 1]) {
            Some(line) => earlier.push(line),
            None => earlier,
        }
    }
}

/// The custom lines, trimmed, without those that are blank.
pub open spec fn custom_lines(custom: Seq<Seq<char>>) -> Seq<Seq<char>>
    decreases custom.len(),
{
    if custom.len() == 0 {
        Seq::empty()
    } else {
        let earlier = custom_lines(custom.drop_last());
        let line = text::trim(custom.last());
        if line.len() == 0 {
            earlier
        } else {
            earlier.push(line)
        }
    }
}

/// The flags in registry order, as far as they are set, then the custom lines.
pub open spec fn flag_lines(values: ValuesSpec) -> Seq<Seq<char>> {
    value_lines(values.values, REGISTRY_LEN as int) + custom_lines(values.custom)
}

/// Whether `s` holds white space.
fn holds_white(s: &[char]) -> (found: bool)
    ensures
        found == has_white(s@),
{
    for i in 0..s.len()
        invariant
            forall|j: int| 0 <= j < i ==> !text::is_white(#[trigger] s@[j]),
    {
        if text::is_whitespace(s[i]) {
            return true;
        }
    }
    false
}

/// A text as one word of a shell line.
fn write_shell_word(s: &[char]) -> (word: Vec<char>)
    ensures
        word@ == shell_word(s@),
{
    if !holds_white(s) {
        return text::copy_chars(s);
    }
    let quote = if text::has_char(s, '"') && !text::has_char(s, '\'') {
        '\''
    } else {
        '"'
    };
    let mut word: Vec<char> = Vec::new();
    word.push(quote);
    text::append_chars(&mut word, s);
    word.push(quote);
    assert(word@ =~= seq![quote] + s@ + seq![quote]);
    word
}

/// A flag and its value on one line.
fn write_pair(flag: &str, value: &[char]) -> (line: Vec<char>)
    ensures
        line@ == flag@ + seq![' '] + value@,
{
    let mut line = text::chars_of(flag);
    line.push(' ');
    text::append_chars(&mut line, value);
    assert(line@ =~= flag@ + seq![' '] + value@);
    line
}

/// The command line for one flag with a value.
fn write_value(def: &ParamDef, value: &ParamValue) -> (line: Option<Vec<char>>)
    ensures
        cmd_block::option_view(line) == value_line(def@, value@),
{
    match value {
        ParamValue::Unset => None,
        ParamValue::On => {
            let mut line = text::chars_of(def.flag);
            match def.kind {
                ParamKind::TriState => {
                    text::append_chars(&mut line, text::chars_of(" on").as_slice());
                },
                _ => {},
            }
            assert(def@.kind is TriState ==> line@ =~= def@.flag + " on"@);
            Some(line)
        },
        ParamValue::Off => match def.kind {
            ParamKind::Toggle => None,
            _ => {
                let mut line = text::chars_of(def.flag);
                text::append_chars(&mut line, text::chars_of(" off").as_slice());
                assert(line@ =~= def@.flag + " off"@);
                Some(line)
            },
        },
        ParamValue::Integer(v) => Some(
            write_pair(def.flag, number::write_signed(*v).as_slice()),
        ),
        ParamValue::Choice(index) => match def.kind_options() {
            Some(options) => if *index < options.len() {
                Some(write_pair(def.flag, text::chars_of(options[*index]).as_slice()))
            } else {
                None
            },
            None => None,
        },
        ParamValue::Text(t) => {
            let chars = text::chars_of(t.as_str());
            let kept = text::trimmed(chars.as_slice());
            if kept.len() == 0 {
                None
            } else {
                Some(write_pair(def.flag, write_shell_word(kept).as_slice()))
            }
        },
    }
}

impl ParamValues {
    pub fn new() -> (fresh: Self)
        ensures
            fresh@ == ValuesSpec::unset(REGISTRY_LEN as nat),
    {
        let mut values: Vec<ParamValue> = Vec::new();
        let mut i: usize = 0;
        while i < REGISTRY_LEN
            invariant
                i <= REGISTRY_LEN,
                values@.len() == i,
                forall|j: int| 0 <= j < i ==> (#[trigger] values@[j])@ == ValueSpec::Unset,
            decreases REGISTRY_LEN - i,
        {
            values.push(ParamValue::Unset);
            i = i + 1;
        }
        let fresh = ParamValues { values, custom: Vec::new() };
        assert(fresh@.values =~= ValuesSpec::unset(REGISTRY_LEN as nat).values);
        assert(fresh@.custom =~= Seq::<Seq<char>>::empty());
        fresh
    }

    pub fn clear(&mut self)
        ensures
            final(self)@ == ValuesSpec::unset(old(self)@.values.len()),
    {
        let mut values: Vec<ParamValue> = Vec::new();
        for i in 0..self.values.len()
            invariant
                values@.len() == i,
                forall|j: int| 0 <= j < i ==> (#[trigger] values@[j])@ == ValueSpec::Unset,
        {
            values.push(ParamValue::Unset);
        }
        self.values = values;
        self.custom = Vec::new();
        assert(self@.values =~= ValuesSpec::unset(old(self)@.values.len()).values);
        assert(self@.custom =~= Seq::<Seq<char>>::empty());
    }

    /// Flags in registry order (only set values), then custom lines. The binary, the
    /// model path and the port are not among them.
    pub fn generate_flags(&self) -> (flags: Vec<String>)
        requires
            self@.values.len() >= REGISTRY_LEN,
        ensures
            text::views(flags@) == flag_lines(self@),
    {
        broadcast use text::lemma_views_push;

        let mut flags: Vec<String> = Vec::new();
        assert(text::views(flags@) =~= value_lines(self@.values, 0));
        let mut i: usize = 0;
        while i < REGISTRY_LEN
            invariant
                i <= REGISTRY_LEN,
                self@.values.len() >= REGISTRY_LEN,
                text::views(flags@) == value_lines(self@.values, i as int),
            decreases REGISTRY_LEN - i,
        {
            let def = registry_table::registry_def(i);
            assert(self@.values[i as int] == self.values@[i as int]@);
            match write_value(&def, &self.values[i]) {
                Some(line) => {
                    flags.push(text::string_of(line.as_slice()));
                },
                None => {},
            }
            i = i + 1;
        }
        let ghost head = text::views(flags@);
        assert(head + custom_lines(self@.custom.take(0)) =~= head);
        for j in 0..self.custom.len()
            invariant
                text::views(flags@) == head + custom_lines(self@.custom.take(j as int)),
        {
            proof {
                assert(self@.custom.take(j + 1).drop_last() =~= self@.custom.take(j as int));
                assert(self@.custom.take(j + 1).last() == self.custom@[j as int]@);
            }
            let chars = text::chars_of(self.custom[j].as_str());
            let line = text::trimmed(chars.as_slice());
            if line.len() > 0 {
                let ghost earlier = flags@;
                flags.push(text::string_of(line));
                proof {
                    text::lemma_views_push(earlier, flags@.last());
                }
                assert(text::views(flags@) =~= head + custom_lines(self@.custom.take(j + 1)));
            }
        }
        assert(self@.custom.take(self@.custom.len() as int) =~= self@.custom);
        flags
    }
}

/// Whether a token sets the port, which the router manages.
pub open spec fn is_port_flag(token: Seq<char>) -> bool {
    token == "--port"@
}

/// Whether a token sets the port together with its value.
pub open spec fn is_port_setting(token: Seq<char>) -> bool {
    text::starts_with(token, "--port="@)
}

/// The tokens without those that set the port.
pub open spec fn without_port(tokens: Seq<Seq<char>>) -> Seq<Seq<char>>
    decreases tokens.len(),
{
    if tokens.len() == 0 {
        Seq::empty()
    } else if is_port_flag(tokens[0]) {
        if tokens.len() >= 2 {
            without_port(tokens.skip(2))
        } else {
            Seq::empty()
        }
    } else if is_port_setting(tokens[0]) {
        without_port(tokens.drop_first())
    } else {
        seq![tokens[0]] + without_port(tokens.drop_first())
    }
}

/// The values after reading a token of the form `--name=value`. A flag that the
/// registry does not know, that takes no value, or whose value cannot be represented is
/// kept as a custom line.
pub open spec fn read_assignment(
    values: ValuesSpec,
    token: Seq<char>,
    name: Seq<char>,
    value: Seq<char>,
) -> ValuesSpec {
    match param_registry::find_flag(name) {
        Some(i) => match param_registry::value_of_token(
            registry_table::flag_table()[i].kind,
            cmd_block::without_quotes(value),
        ) {
            Some(v) => values.with_value(i, v),
            None => values.with_custom(token),
        },
        None => values.with_custom(token),
    }
}

/// Whether a token is a flag: it starts with a dash and is more than that dash.
pub open spec fn is_flag(token: Seq<char>) -> bool {
    text::starts_with_char(token, '-') && token != "-"@
}

/// Whether a token looks like a negative number: a dash and a digit.
pub open spec fn is_negative(token: Seq<char>) -> bool {
    token.len() >= 2 && token[0] == '-' && number::is_digit(token[1])
}

/// Whether a token ends the values of the flag before it: it is a flag, and no negative
/// number.
pub open spec fn ends_values(token: Seq<char>) -> bool {
    is_flag(token) && !is_negative(token)
}

/// The position of the next flag, from `from` on, or the number of tokens if there is
/// none.
pub open spec fn next_flag(tokens: Seq<Seq<char>>, from: int) -> int {
    text::first_index(tokens, from, |token: Seq<char>| ends_values(token))
}

/// No flag stands before the next one.
pub proof fn lemma_next_flag(tokens: Seq<Seq<char>>, from: int)
    requires
        0 <= from <= tokens.len(),
    ensures
        from <= next_flag(tokens, from) <= tokens.len(),
        forall|i: int| from <= i < next_flag(tokens, from) ==> !ends_values(#[trigger] tokens[i]),
        next_flag(tokens, from) < tokens.len() ==> ends_values(tokens[next_flag(tokens, from)]),
{
    let flagged = |token: Seq<char>| ends_values(token);
    text::lemma_first_index(tokens, from, flagged);
    assert forall|i: int| from <= i < next_flag(tokens, from) implies !ends_values(
        #[trigger] tokens[i],
    ) by {
        assert(!flagged(tokens[i]));
    }
}

/// The values after reading the tokens of one line. What is no flag keeps the remainder
/// of the line together as one custom line. A flag that the registry does not know
/// becomes a custom line with its values: the tokens up to the next flag, where a negative
/// number is a value and no flag. A flag whose value is missing, or cannot be represented,
/// becomes a custom line with its value.
pub open spec fn read_tokens(values: ValuesSpec, tokens: Seq<Seq<char>>) -> ValuesSpec
    decreases tokens.len(),
{
    if tokens.len() == 0 {
        values
    } else {
        let token = tokens[0];
        let rest = tokens.drop_first();
        if !is_flag(token) {
            values.with_custom(text::join(tokens, seq![' ']))
        } else {
            match text::split_once(token, '=') {
                Some((name, value)) => read_tokens(
                    read_assignment(values, token, name, value),
                    rest,
                ),
                None => match param_registry::find_flag(token) {
                    None => {
                        let n = next_flag(tokens, 1);
                        proof {
                            lemma_next_flag(tokens, 1);
                        }
                        read_tokens(
                            values.with_custom(text::join(tokens.take(n), seq![' '])),
                            tokens.skip(n),
                        )
                    },
                    Some(i) => {
                        let kind = registry_table::flag_table()[i].kind;
                        if kind is Toggle {
                            read_tokens(values.with_value(i, ValueSpec::On), rest)
                        } else if rest.len() == 0 {
                            values.with_custom(token)
                        } else {
                            let read = match param_registry::value_of_token(
                                kind,
                                cmd_block::without_quotes(rest[0]),
                            ) {
                                Some(v) => values.with_value(i, v),
                                None => values.with_custom(token + seq![' '] + rest[0]),
                            };
                            read_tokens(read, rest.drop_first())
                        }
                    },
                },
            }
        }
    }
}

/// The values after reading token lines, one after the other.
pub open spec fn read_lines(values: ValuesSpec, lines: Seq<Seq<Seq<char>>>) -> ValuesSpec
    decreases lines.len(),
{
    if lines.len() == 0 {
        values
    } else {
        read_tokens(read_lines(values, lines.drop_last()), without_port(lines.last()))
    }
}

/// Reading tokens keeps the number of values.
pub proof fn lemma_read_tokens_len(values: ValuesSpec, tokens: Seq<Seq<char>>)
    requires
        values.values.len() >= REGISTRY_LEN,
    ensures
        read_tokens(values, tokens).values.len() == values.values.len(),
    decreases tokens.len(),
{
    if tokens.len() > 0 {
        let token = tokens[0];
        let rest = tokens.drop_first();
        param_registry::lemma_find_flag_from(token, 0);
        match text::split_once(token, '=') {
            Some((name, value)) => {
                param_registry::lemma_find_flag_from(name, 0);
                lemma_read_tokens_len(read_assignment(values, token, name, value), rest);
            },
            None => match param_registry::find_flag(token) {
                None => {
                    let n = next_flag(tokens, 1);
                    lemma_next_flag(tokens, 1);
                    lemma_read_tokens_len(
                        values.with_custom(text::join(tokens.take(n), seq![' '])),
                        tokens.skip(n),
                    );
                },
                Some(i) => {
                    lemma_read_tokens_len(values.with_value(i, ValueSpec::On), rest);
                    if rest.len() > 0 {
                        let kind = registry_table::flag_table()[i].kind;
                        match param_registry::value_of_token(
                            kind,
                            cmd_block::without_quotes(rest[0]),
                        ) {
                            Some(v) => {
                                lemma_read_tokens_len(values.with_value(i, v), rest.drop_first());
                            },
                            None => {
                                lemma_read_tokens_len(
                                    values.with_custom(token + seq![' '] + rest[0]),
                                    rest.drop_first(),
                                );
                            },
                        }
                    }
                },
            },
        }
    }
}

/// The tokens without those that set the port.
fn drop_port(list: &[String]) -> (kept: Vec<Vec<char>>)
    ensures
        text::views(kept@) == without_port(text::views(list@)),
{
    let ghost all = text::views(list@);
    let mut kept: Vec<Vec<char>> = Vec::new();
    let mut i: usize = 0;
    assert(all.skip(0) =~= all);
    assert(text::views(kept@) + without_port(all) =~= without_port(all));
    while i < list.len()
        invariant
            i <= list@.len(),
            all == text::views(list@),
            text::views(kept@) + without_port(all.skip(i as int)) == without_port(all),
        decreases list@.len() - i,
    {
        let ghost rest = all.skip(i as int);
        let token = text::chars_of(list[i].as_str());
        assert(rest[0] == token@);
        assert(rest.drop_first() =~= all.skip(i + 1));
        if text::is_text(token.as_slice(), "--port") {
            if list.len() - i >= 2 {
                assert(rest.skip(2) =~= all.skip(i + 2));
                i = i + 2;
            } else {
                assert(all.skip(i + 1) =~= Seq::<Seq<char>>::empty());
                i = i + 1;
            }
        } else if text::has_prefix(token.as_slice(), "--port=") {
            i = i + 1;
        } else {
            let ghost earlier = kept@;
            kept.push(token);
            proof {
                text::lemma_views_push(earlier, token);
                assert(text::views(kept@) + without_port(all.skip(i + 1)) =~= text::views(earlier)
                    + without_port(rest));
            }
            i = i + 1;
        }
    }
    assert(text::views(kept@) + Seq::<Seq<char>>::empty() =~= text::views(kept@));
    kept
}

/// Whether a token is a flag.
fn flag_token(token: &[char]) -> (found: bool)
    ensures
        found == is_flag(token@),
{
    token.len() > 0 && token[0] == '-' && !text::is_text(token, "-")
}

/// Whether a token ends the values of the flag before it.
fn ends_value_tokens(token: &[char]) -> (found: bool)
    ensures
        found == ends_values(token@),
{
    flag_token(token) && !(token.len() >= 2 && '0' <= token[1] && token[1] <= '9')
}

/// The position of the next flag, from `from` on, or the number of tokens if there is
/// none.
fn find_next_flag(list: &Vec<Vec<char>>, from: usize) -> (at: usize)
    requires
        from <= list@.len(),
    ensures
        at == next_flag(text::views(list@), from as int),
        from <= at <= list@.len(),
{
    let ghost all = text::views(list@);
    let mut at: usize = from;
    while at < list.len() && !ends_value_tokens(list[at].as_slice())
        invariant
            from <= at <= list@.len(),
            all == text::views(list@),
            forall|i: int| from <= i < at ==> !ends_values(#[trigger] all[i]),
        decreases list@.len() - at,
    {
        assert(all[at as int] == list@[at as int]@);
        at = at + 1;
    }
    proof {
        if at < list@.len() {
            assert(all[at as int] == list@[at as int]@);
        }
        text::lemma_first_index_is(
            all,
            from as int,
            |token: Seq<char>| ends_values(token),
            at as int,
        );
    }
    at
}

/// The tokens from position `from` to `to`, with a space between them.
fn join_between(list: &Vec<Vec<char>>, from: usize, to: usize) -> (line: String)
    requires
        from <= to <= list@.len(),
    ensures
        line@ == text::join(
            text::views(list@).subrange(from as int, to as int),
            seq![' '],
        ),
{
    let ghost all = text::views(list@);
    let mut parts: Vec<Vec<char>> = Vec::new();
    crate::swap_yaml::append_lines(&mut parts, list, from, to);
    assert(text::views(parts@) =~= all.subrange(from as int, to as int));
    text::string_of(text::join_chars(&parts, ' ').as_slice())
}

impl ParamValues {
    /// Sets the value at a position.
    pub fn set(&mut self, index: usize, value: ParamValue)
        requires
            index < old(self)@.values.len(),
        ensures
            final(self)@ == old(self)@.with_value(index as int, value@),
    {
        self.values.set(index, value);
        assert(self@.values =~= old(self)@.values.update(index as int, value@));
        assert(self@.custom =~= old(self)@.custom);
    }

    /// Adds a custom line.
    pub fn add_custom(&mut self, line: String)
        ensures
            final(self)@ == old(self)@.with_custom(line@),
    {
        self.custom.push(line);
        assert(self@.values =~= old(self)@.values);
        assert(self@.custom =~= old(self)@.custom.push(line@));
    }

    /// Replaces a custom line.
    pub fn set_custom(&mut self, index: usize, line: String)
        requires
            index < old(self)@.custom.len(),
        ensures
            final(self)@ == (ValuesSpec {
                custom: old(self)@.custom.update(index as int, line@),
                ..old(self)@
            }),
    {
        self.custom.set(index, line);
        assert(self@.values =~= old(self)@.values);
        assert(self@.custom =~= old(self)@.custom.update(index as int, line@));
    }

    /// Removes a custom line.
    pub fn remove_custom(&mut self, index: usize)
        requires
            index < old(self)@.custom.len(),
        ensures
            final(self)@ == (ValuesSpec {
                custom: old(self)@.custom.remove(index as int),
                ..old(self)@
            }),
    {
        let removed = self.custom.remove(index);
        assert(self@.values =~= old(self)@.values);
        assert(self@.custom =~= old(self)@.custom.remove(index as int));
    }

    /// Stores the value that a token stands for, if the flag at `index` can represent it.
    pub fn set_imported(&mut self, index: usize, value: &str) -> (stored: bool)
        requires
            index < REGISTRY_LEN,
            old(self)@.values.len() >= REGISTRY_LEN,
        ensures
            match param_registry::value_of_token(
                registry_table::flag_table()[index as int].kind,
                value@,
            ) {
                Some(v) => stored && final(self)@ == old(self)@.with_value(index as int, v),
                None => !stored && final(self)@ == old(self)@,
            },
    {
        let def = registry_table::registry_def(index);
        match def.parse_value(value) {
            Some(parsed) => {
                self.set(index, parsed);
                true
            },
            None => false,
        }
    }

    /// Reads a token of the form `--name=value`.
    fn import_assignment(&mut self, token: &[char], name: &[char], value: &[char])
        requires
            old(self)@.values.len() >= REGISTRY_LEN,
        ensures
            final(self)@ == read_assignment(old(self)@, token@, name@, value@),
            final(self)@.values.len() == old(self)@.values.len(),
    {
        let stored = match param_registry::find_by_flag(text::string_of(name).as_str()) {
            Some(index) => self.set_imported(
                index,
                text::string_of(cmd_block::strip_quotes(value)).as_str(),
            ),
            None => false,
        };
        if !stored {
            self.add_custom(text::string_of(token));
        }
    }

    /// Reads the tokens of one line.
    pub fn import_tokens(&mut self, list: &Vec<Vec<char>>)
        requires
            old(self)@.values.len() >= REGISTRY_LEN,
        ensures
            final(self)@ == read_tokens(old(self)@, text::views(list@)),
    {
        let ghost all = text::views(list@);
        let ghost goal = read_tokens(self@, all);
        let mut i: usize = 0;
        assert(all.skip(0) =~= all);
        while i < list.len()
            invariant
                i <= list@.len(),
                all == text::views(list@),
                self@.values.len() >= REGISTRY_LEN,
                read_tokens(self@, all.skip(i as int)) == goal,
                goal == read_tokens(old(self)@, all),
            decreases list@.len() - i,
        {
            let ghost before = self@;
            let ghost rest = all.skip(i as int);
            let token = list[i].as_slice();
            assert(rest[0] == token@);
            assert(rest.drop_first() =~= all.skip(i + 1));
            if !flag_token(token) {
                self.add_custom(join_between(list, i, list.len()));
                assert(all.subrange(i as int, all.len() as int) =~= rest);
                return;
            }
            match text::split_at_char(token, '=') {
                Some((name, value)) => {
                    self.import_assignment(token, name, value);
                    i = i + 1;
                    continue;
                },
                None => {},
            }
            let index: usize = match param_registry::find_by_flag(
                text::string_of(token).as_str(),
            ) {
                Some(index) => index,
                None => {
                    let next: usize = find_next_flag(list, i + 1);
                    self.add_custom(join_between(list, i, next));
                    proof {
                        let n = next - i;
                        lemma_next_flag(all, i + 1);
                        assert forall|j: int| 1 <= j < n implies !ends_values(
                            #[trigger] rest[j],
                        ) by {
                            assert(rest[j] == all[i + j]);
                        }
                        if n < rest.len() {
                            assert(rest[n] == all[next as int]);
                        }
                        text::lemma_first_index_is(
                            rest,
                            1,
                            |token: Seq<char>| ends_values(token),
                            n,
                        );
                        assert(rest.take(n) =~= all.subrange(i as int, next as int));
                        assert(rest.skip(n) =~= all.skip(next as int));
                    }
                    i = next;
                    continue;
                },
            };
            let def = registry_table::registry_def(index);
            if !def.takes_value() {
                self.set(index, ParamValue::On);
                i = i + 1;
                continue;
            }
            if list.len() - i >= 2 {
                let value = list[i + 1].as_slice();
                assert(rest.drop_first()[0] == value@);
                assert(rest.drop_first().drop_first() =~= all.skip(i + 2));
                let stored = self.set_imported(
                    index,
                    text::string_of(cmd_block::strip_quotes(value)).as_str(),
                );
                if !stored {
                    let line = write_pair(text::string_of(token).as_str(), value);
                    self.add_custom(text::string_of(line.as_slice()));
                }
                i = i + 2;
            } else {
                self.add_custom(text::string_of(token));
                return;
            }
        }
    }

    /// Reads token lines, one after the other. Tokens that set the port are passed over:
    /// the router manages the port.
    pub fn import_lines(&mut self, lines: &[Vec<String>])
        requires
            old(self)@.values.len() >= REGISTRY_LEN,
        ensures
            final(self)@ == read_lines(old(self)@, cmd_block::grid(lines@)),
            final(self)@.values.len() == old(self)@.values.len(),
    {
        let ghost all = cmd_block::grid(lines@);
        let ghost given = self@;
        for i in 0..lines.len()
            invariant
                all == cmd_block::grid(lines@),
                self@ == read_lines(given, all.take(i as int)),
                self@.values.len() == given.values.len(),
                given.values.len() >= REGISTRY_LEN,
        {
            let kept = drop_port(lines[i].as_slice());
            proof {
                assert(all.take(i + 1).drop_last() =~= all.take(i as int));
                assert(all.take(i + 1).last() == text::views(lines@[i as int]@));
                lemma_read_tokens_len(self@, text::views(kept@));
            }
            self.import_tokens(&kept);
        }
        assert(all.take(all.len() as int) =~= all);
    }
}

} // verus!
