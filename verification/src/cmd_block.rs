//! The `cmd:` block of a model entry: its lines, its command-line tokens, and its
//! replacement.

use crate::swap_yaml;
use crate::swap_yaml::SwapYamlError;
use crate::text;
use vstd::prelude::*;
use vstd::slice::slice_subrange;

verus! {

/// The token lists of several lines, with tokens as character sequences.
pub open spec fn grid<T: View>(lines: Seq<Vec<T>>) -> Seq<Seq<T::V>> {
    lines.map_values(|line: Vec<T>| text::views(line@))
}

/// The quote that is open behind `c`.
pub open spec fn quote_after(quote: Option<char>, c: char) -> Option<char> {
    match quote {
        Some(open) => if c == open {
            None
        } else {
            quote
        },
        None => if c == '"' || c == '\'' {
            Some(c)
        } else {
            None
        },
    }
}

/// The number of characters of `s` up to the first white space outside quotes, where
/// `quote` is open at its start.
pub open spec fn token_len(s: Seq<char>, quote: Option<char>) -> nat
    decreases s.len(),
{
    if s.len() == 0 || (quote is None && text::is_white(s[0])) {
        0
    } else {
        1 + token_len(s.drop_first(), quote_after(quote, s[0]))
    }
}

pub proof fn lemma_token_len_bound(s: Seq<char>, quote: Option<char>)
    ensures
        token_len(s, quote) <= s.len(),
    decreases s.len(),
{
    if s.len() > 0 {
        lemma_token_len_bound(s.drop_first(), quote_after(quote, s[0]));
    }
}

/// The tokens of a line: runs of characters between white space, where quoted spans
/// are kept together and keep their quotes.
pub open spec fn tokens(s: Seq<char>) -> Seq<Seq<char>>
    decreases s.len(),
{
    let rest = text::trim_start(s);
    if rest.len() == 0 {
        Seq::empty()
    } else {
        let n = token_len(rest, None) as int;
        proof {
            text::lemma_trim_start(s);
            lemma_token_len_bound(rest, None);
        }
        seq![rest.take(n)] + tokens(rest.skip(n))
    }
}

/// White space before the first token does not count.
pub proof fn lemma_tokens_trim_start(s: Seq<char>)
    ensures
        tokens(text::trim_start(s)) == tokens(s),
{
    text::lemma_trim_start_again(s);
}

/// The length of the token at the start of `s`.
fn token_end(s: &[char]) -> (n: usize)
    ensures
        n == token_len(s@, None),
        n <= s@.len(),
{
    let mut quote: Option<char> = None;
    let mut i: usize = 0;
    assert(s@.skip(0) =~= s@);
    while i < s.len()
        invariant
            i <= s@.len(),
            token_len(s@, None) == i + token_len(s@.skip(i as int), quote),
        decreases s@.len() - i,
    {
        let ghost rest = s@.skip(i as int);
        assert(rest.drop_first() =~= s@.skip(i + 1));
        let c = s[i];
        match quote {
            Some(open) => {
                if c == open {
                    quote = None;
                }
            },
            None => {
                if text::is_whitespace(c) {
                    return i;
                }
                if c == '"' || c == '\'' {
                    quote = Some(c);
                }
            },
        }
        i = i + 1;
    }
    i
}

/// Whitespace tokenizer that keeps double- and single-quoted spans as one token,
/// with their quote characters, so that shell semantics survive.
pub fn tokenize_line(line: &[char]) -> (list: Vec<Vec<char>>)
    ensures
        text::views(list@) == tokens(line@),
{
    let mut list: Vec<Vec<char>> = Vec::new();
    let mut rest = text::after_leading_white(line);
    assert(text::views(list@) + tokens(line@) =~= tokens(line@));
    proof {
        text::lemma_trim_start_again(line@);
        lemma_tokens_trim_start(line@);
    }
    while rest.len() > 0
        invariant
            rest@ == text::trim_start(rest@),
            text::views(list@) + tokens(rest@) == tokens(line@),
        decreases rest@.len(),
    {
        let n: usize = token_end(rest);
        proof {
            text::lemma_trim_start(rest@);
        }
        assert(n > 0);
        let ghost earlier = list@;
        list.push(text::copy_chars(slice_subrange(rest, 0, n)));
        proof {
            text::lemma_views_push(earlier, list@.last());
        }
        let tail = slice_subrange(rest, n, rest.len());
        assert(tail@ =~= rest@.skip(n as int));
        assert(rest@.subrange(0, n as int) =~= rest@.take(n as int));
        let next = text::after_leading_white(tail);
        proof {
            text::lemma_trim_start(tail@);
            text::lemma_trim_start_again(tail@);
            lemma_tokens_trim_start(tail@);
            assert(text::views(list@) + tokens(next@) =~= text::views(earlier) + tokens(rest@));
        }
        rest = next;
    }
    assert(text::views(list@) + Seq::<Seq<char>>::empty() =~= text::views(list@));
    list
}

/// A token without one layer of matching quotes around it.
pub open spec fn without_quotes(token: Seq<char>) -> Seq<char> {
    if token.len() >= 2 && token[0] == token.last() && (token[0] == '"' || token[0] == '\'') {
        token.subrange(1, token.len() - 1)
    } else {
        token
    }
}

/// Strip one layer of matching surrounding quotes from a token.
pub fn strip_quotes(token: &[char]) -> (inner: &[char])
    ensures
        inner@ == without_quotes(token@),
{
    let n: usize = token.len();
    if n >= 2 && token[0] == token[n - 1] && (token[0] == '"' || token[0] == '\'') {
        slice_subrange(token, 1, n - 1)
    } else {
        token
    }
}

/// Whether a line holds nothing but white space.
pub open spec fn is_blank(line: Seq<char>) -> bool {
    text::trim_end(line).len() == 0
}

/// The number of bytes of white space at the start of a line.
pub open spec fn indent_of(line: Seq<char>) -> nat {
    text::byte_len(line.take(line.len() - text::trim_start(line).len()))
}

/// Whether a line has the key `cmd:`.
pub open spec fn has_cmd_key(line: Seq<char>) -> bool {
    text::starts_with(text::trim_start(line), "cmd:"@)
}

/// Whether a line has the key `cmd:` and opens a literal block.
pub open spec fn opens_block(line: Seq<char>) -> bool {
    has_cmd_key(line) && text::starts_with_char(
        text::trim(text::trim_start(line).skip(4)),
        '|',
    )
}

/// Whether a line ends the block below a key that is indented by `indent` bytes: it is
/// not blank and not indented deeper.
pub open spec fn ends_block(line: Seq<char>, indent: nat) -> bool {
    !is_blank(line) && indent_of(line) <= indent
}

/// `to`, or the position behind the last line before it, from `from` on, that is not
/// blank.
pub open spec fn without_blank_tail(lines: Seq<Seq<char>>, from: int, to: int) -> int
    decreases to - from,
{
    if to <= from || !is_blank(lines[to - 1]) {
        to
    } else {
        without_blank_tail(lines, from, to - 1)
    }
}

/// The position behind the last line of the block below the key on line `key`. Blank
/// lines at the end of the block do not belong to it.
pub open spec fn block_end(lines: Seq<Seq<char>>, key: int) -> int {
    let indent = indent_of(lines[key]);
    without_blank_tail(
        lines,
        key + 1,
        text::first_index(lines, key + 1, |line: Seq<char>| ends_block(line, indent)),
    )
}

/// Whether a token is a server binary: plain (`llama-server`), a variant of it
/// (`llama-server-exp`), with or without a path before it, or a macro for one
/// (`${llama_server}`).
pub open spec fn is_server(token: Seq<char>) -> bool {
    text::ends_with(without_braces(token), "server"@) || is_server_variant(token)
}

/// Whether a token names a variant of the server binary: the name of the executable is
/// `llama-server-` and more, without a dot. Settings and files with an ending are none.
pub open spec fn is_server_variant(token: Seq<char>) -> bool {
    let name = text::behind_last(token, '/');
    text::starts_with(name, "llama-server-"@) && !name.contains('.') && !token.contains('=')
}

/// A token without closing braces at its end.
pub open spec fn without_braces(token: Seq<char>) -> Seq<char>
    decreases token.len(),
{
    if token.len() > 0 && token.last() == '}' {
        without_braces(token.drop_last())
    } else {
        token
    }
}

/// The position of the first server token, or the number of tokens if there is none.
pub open spec fn server_index(tokens: Seq<Seq<char>>) -> int {
    text::first_index(tokens, 0, |token: Seq<char>| is_server(token))
}

/// The position of the first line with a server token, or the number of lines if there
/// is none.
pub open spec fn server_line(lines: Seq<Seq<Seq<char>>>) -> int
    decreases lines.len(),
{
    if lines.len() == 0 {
        0
    } else if server_index(lines[0]) < lines[0].len() {
        0
    } else {
        1 + server_line(lines.drop_first())
    }
}

/// The tokens of all lines, one after the other.
pub open spec fn all_tokens(lines: Seq<Seq<Seq<char>>>) -> Seq<Seq<char>>
    decreases lines.len(),
{
    if lines.len() == 0 {
        Seq::empty()
    } else {
        all_tokens(lines.drop_last()) + lines.last()
    }
}

/// The invocation at the start of a command: the tokens up to the server binary,
/// with a space between them. Without a server binary it is `llama-server`.
pub open spec fn invocation(lines: Seq<Seq<Seq<char>>>) -> Seq<char> {
    let at = server_line(lines);
    if at < lines.len() {
        text::join(
            all_tokens(lines.take(at)) + lines[at].take(server_index(lines[at]) + 1),
            seq![' '],
        )
    } else {
        "llama-server"@
    }
}

/// The token lines behind the invocation; all of them where there is no server binary.
pub open spec fn arguments(lines: Seq<Seq<Seq<char>>>) -> Seq<Seq<Seq<char>>> {
    let at = server_line(lines);
    if at < lines.len() {
        seq![lines[at].skip(server_index(lines[at]) + 1)] + lines.skip(at + 1)
    } else {
        lines
    }
}

/// The tokens of a line without the model flags and the paths behind them.
pub open spec fn without_model(tokens: Seq<Seq<char>>) -> Seq<Seq<char>>
    decreases tokens.len(),
{
    if tokens.len() == 0 {
        Seq::empty()
    } else if tokens.len() >= 2 && swap_yaml::is_model_flag(tokens[0]) {
        without_model(tokens.skip(2))
    } else {
        seq![tokens[0]] + without_model(tokens.drop_first())
    }
}

/// The path behind the last model flag of a line, or `found` if it has none.
pub open spec fn last_model(tokens: Seq<Seq<char>>, found: Option<Seq<char>>) -> Option<Seq<char>>
    decreases tokens.len(),
{
    if tokens.len() == 0 {
        found
    } else if tokens.len() >= 2 && swap_yaml::is_model_flag(tokens[0]) {
        last_model(tokens.skip(2), Some(without_quotes(tokens[1])))
    } else {
        last_model(tokens.drop_first(), found)
    }
}

/// The token lines without their model flags, as far as tokens are left.
pub open spec fn flag_tokens(lines: Seq<Seq<Seq<char>>>) -> Seq<Seq<Seq<char>>>
    decreases lines.len(),
{
    if lines.len() == 0 {
        Seq::empty()
    } else {
        let earlier = flag_tokens(lines.drop_last());
        let kept = without_model(lines.last());
        if kept.len() > 0 {
            earlier.push(kept)
        } else {
            earlier
        }
    }
}

/// The path behind the last model flag of the lines.
pub open spec fn model_of(lines: Seq<Seq<Seq<char>>>) -> Option<Seq<char>>
    decreases lines.len(),
{
    if lines.len() == 0 {
        None
    } else {
        last_model(lines.last(), model_of(lines.drop_last()))
    }
}

/// The token lines of the block below the key on line `key`.
pub open spec fn block_tokens(lines: Seq<Seq<char>>, key: int) -> Seq<Seq<Seq<char>>> {
    lines.subrange(key + 1, block_end(lines, key)).map_values(
        |line: Seq<char>| tokens(text::trim(line)),
    )
}

/// The invocation, the flag tokens by line, and the model path of a command with these
/// token lines.
pub open spec fn command_parts(list: Seq<Seq<Seq<char>>>) -> (
    Seq<char>,
    Seq<Seq<Seq<char>>>,
    Option<Seq<char>>,
) {
    (invocation(list), flag_tokens(arguments(list)), model_of(arguments(list)))
}

/// The parts of the command of an entry with these lines, if it has a block of commands
/// that is not blank.
pub open spec fn cmd_parts(lines: Seq<Seq<char>>) -> Option<
    (Seq<char>, Seq<Seq<Seq<char>>>, Option<Seq<char>>),
> {
    let key = text::first_index(lines, 0, |line: Seq<char>| opens_block(line));
    if key < lines.len() && block_end(lines, key) > key + 1 {
        Some(command_parts(block_tokens(lines, key)))
    } else {
        None
    }
}

/// The number of bytes of white space at the start of a line.
fn indent_bytes(line: &[char]) -> (n: u128)
    ensures
        n == indent_of(line@),
{
    proof {
        text::lemma_trim_start(line@);
    }
    let white: usize = line.len() - text::after_leading_white(line).len();
    let head = slice_subrange(line, 0, white);
    assert(head@ =~= line@.take(white as int));
    text::count_bytes(head)
}

/// Whether a line has the key `cmd:`.
pub(crate) fn cmd_key(line: &[char]) -> (found: bool)
    ensures
        found == has_cmd_key(line@),
{
    text::has_prefix(text::after_leading_white(line), "cmd:")
}

/// Whether a line has the key `cmd:` and opens a literal block.
fn block_key(line: &[char]) -> (found: bool)
    ensures
        found == opens_block(line@),
{
    let kept = text::after_leading_white(line);
    if !text::has_prefix(kept, "cmd:") {
        return false;
    }
    proof {
        reveal_strlit("cmd:");
    }
    let value = slice_subrange(kept, 4, kept.len());
    assert(value@ =~= kept@.skip(4));
    let value = text::trimmed(value);
    value.len() > 0 && value[0] == '|'
}

/// `without_blank_tail` is the only position with nothing but blank lines behind it and
/// none before it.
pub proof fn lemma_blank_tail(lines: Seq<Seq<char>>, from: int, to: int, n: int)
    requires
        0 <= from <= n <= to <= lines.len(),
        n > from ==> !is_blank(lines[n - 1]),
        forall|i: int| n <= i < to ==> is_blank(#[trigger] lines[i]),
    ensures
        without_blank_tail(lines, from, to) == n,
    decreases to - n,
{
    if n < to {
        assert(is_blank(lines[to - 1]));
        lemma_blank_tail(lines, from, to - 1, n);
    }
}

/// The position behind the last line of the block below the key on line `key`, among
/// the lines before `end`.
pub(crate) fn find_block_end(lines: &Vec<Vec<char>>, key: usize, end: usize) -> (stop: usize)
    requires
        key < end <= lines@.len(),
    ensures
        stop == block_end(text::views(lines@).take(end as int), key as int),
        key < stop <= end,
{
    let ghost all = text::views(lines@).take(end as int);
    let ghost indent = indent_of(all[key as int]);
    let ghost ends = |line: Seq<char>| ends_block(line, indent);
    assert(all[key as int] == lines@[key as int]@);
    let key_indent: u128 = indent_bytes(lines[key].as_slice());
    let mut stop: usize = key + 1;
    let mut i: usize = key + 1;
    while i < end
        invariant
            key < stop <= i <= end <= lines@.len(),
            all == text::views(lines@).take(end as int),
            indent == indent_of(all[key as int]),
            key_indent == indent,
            ends == (|line: Seq<char>| ends_block(line, indent)),
            forall|j: int| key < j < i ==> !ends_block(#[trigger] all[j], indent),
            stop > key + 1 ==> !is_blank(all[stop - 1]),
            forall|j: int| stop <= j < i ==> is_blank(#[trigger] all[j]),
        decreases end - i,
    {
        assert(all[i as int] == lines@[i as int]@);
        if text::before_trailing_white(lines[i].as_slice()).len() > 0 {
            if indent_bytes(lines[i].as_slice()) <= key_indent {
                proof {
                    text::lemma_first_index_is(all, key + 1, ends, i as int);
                    lemma_blank_tail(all, key + 1, i as int, stop as int);
                }
                return stop;
            }
            stop = i + 1;
        }
        i = i + 1;
    }
    proof {
        text::lemma_first_index_is(all, key + 1, ends, end as int);
        lemma_blank_tail(all, key + 1, end as int, stop as int);
    }
    stop
}

/// Whether a token is a server binary.
fn server_token(token: &[char]) -> (found: bool)
    ensures
        found == is_server(token@),
{
    let mut bare = token;
    while bare.len() > 0 && bare[bare.len() - 1] == '}'
        invariant
            without_braces(bare@) == without_braces(token@),
        decreases bare@.len(),
    {
        let shorter = slice_subrange(bare, 0, bare.len() - 1);
        assert(shorter@ =~= bare@.drop_last());
        bare = shorter;
    }
    let name = text::after_last(token, '/');
    text::has_suffix(bare, "server") || (text::has_prefix(name, "llama-server-")
        && !text::has_char(name, '.') && !text::has_char(token, '='))
}

/// The position of the first server token, or the number of tokens if there is none.
fn find_server(list: &Vec<Vec<char>>) -> (at: usize)
    ensures
        at == server_index(text::views(list@)),
        at <= list@.len(),
{
    let ghost all = text::views(list@);
    let mut at: usize = 0;
    while at < list.len() && !server_token(list[at].as_slice())
        invariant
            at <= list@.len(),
            all == text::views(list@),
            forall|i: int| 0 <= i < at ==> !is_server(#[trigger] all[i]),
        decreases list@.len() - at,
    {
        assert(all[at as int] == list@[at as int]@);
        at = at + 1;
    }
    proof {
        text::lemma_first_index_is(all, 0, |token: Seq<char>| is_server(token), at as int);
    }
    at
}

proof fn lemma_grid_push<T: View>(lines: Seq<Vec<T>>, line: Vec<T>)
    ensures
        grid(lines.push(line)) == grid(lines).push(text::views(line@)),
{
    assert(grid(lines.push(line)) =~= grid(lines).push(text::views(line@)));
}

/// The token lines of the lines from `start` to `end`.
fn tokenize_block(lines: &Vec<Vec<char>>, start: usize, end: usize) -> (list: Vec<Vec<Vec<char>>>)
    requires
        start <= end <= lines@.len(),
    ensures
        grid(list@) == text::views(lines@).subrange(start as int, end as int).map_values(
            |line: Seq<char>| tokens(text::trim(line)),
        ),
{
    let ghost all = text::views(lines@).subrange(start as int, end as int);
    let ghost read = |line: Seq<char>| tokens(text::trim(line));
    let mut list: Vec<Vec<Vec<char>>> = Vec::new();
    for i in start..end
        invariant
            start <= end <= lines@.len(),
            all == text::views(lines@).subrange(start as int, end as int),
            read == (|line: Seq<char>| tokens(text::trim(line))),
            grid(list@) == all.map_values(read).take(i - start),
    {
        let ghost earlier = list@;
        list.push(tokenize_line(text::trimmed(lines[i].as_slice())));
        proof {
            lemma_grid_push(earlier, list@.last());
            assert(all[i - start] == lines@[i as int]@);
            assert(grid(list@) =~= all.map_values(read).take(i + 1 - start));
        }
    }
    assert(all.map_values(read).take(end - start) =~= all.map_values(read));
    list
}

/// The position of the first line with a server token, and of that token; the number
/// of lines if there is none.
fn find_server_line(list: &Vec<Vec<Vec<char>>>) -> (at: (usize, usize))
    ensures
        at.0 == server_line(grid(list@)),
        at.0 <= list@.len(),
        at.0 < list@.len() ==> at.1 == server_index(grid(list@)[at.0 as int]) && at.1
            < list@[at.0 as int]@.len(),
{
    let ghost all = grid(list@);
    let mut i: usize = 0;
    assert(all.skip(0) =~= all);
    while i < list.len()
        invariant
            i <= list@.len(),
            all == grid(list@),
            server_line(all) == i + server_line(all.skip(i as int)),
        decreases list@.len() - i,
    {
        let at: usize = find_server(&list[i]);
        assert(all.skip(i as int)[0] == text::views(list@[i as int]@));
        if at < list[i].len() {
            return (i, at);
        }
        assert(all.skip(i as int).drop_first() =~= all.skip(i + 1));
        i = i + 1;
    }
    (i, 0)
}

/// The invocation that ends with token `last` of line `at`.
fn join_invocation(list: &Vec<Vec<Vec<char>>>, at: usize, last: usize) -> (binary: Vec<char>)
    requires
        at < list@.len(),
        last < list@[at as int]@.len(),
    ensures
        binary@ == text::join(
            all_tokens(grid(list@).take(at as int)) + grid(list@)[at as int].take(last + 1),
            seq![' '],
        ),
{
    let ghost all = grid(list@);
    let mut parts: Vec<Vec<char>> = Vec::new();
    assert(text::views(parts@) =~= all_tokens(all.take(0)));
    for i in 0..at
        invariant
            at < list@.len(),
            all == grid(list@),
            text::views(parts@) == all_tokens(all.take(i as int)),
    {
        swap_yaml::append_lines(&mut parts, &list[i], 0, list[i].len());
        proof {
            let line = text::views(list@[i as int]@);
            assert(line.subrange(0, line.len() as int) =~= line);
            assert(all.take(i + 1).drop_last() =~= all.take(i as int));
            assert(all.take(i + 1).last() == line);
        }
    }
    assert(last < list@[at as int].len());
    swap_yaml::append_lines(&mut parts, &list[at], 0, last + 1);
    proof {
        let line = text::views(list@[at as int]@);
        assert(line.subrange(0, last + 1) =~= line.take(last + 1));
    }
    text::join_chars(&parts, ' ')
}

/// The strings with these characters.
pub(crate) fn strings_of(list: &Vec<Vec<char>>) -> (strings: Vec<String>)
    ensures
        text::views(strings@) == text::views(list@),
{
    let mut strings: Vec<String> = Vec::new();
    for i in 0..list.len()
        invariant
            strings@.len() == i,
            forall|j: int| 0 <= j < i ==> (#[trigger] strings@[j])@ == list@[j]@,
    {
        strings.push(text::string_of(list[i].as_slice()));
    }
    assert(text::views(strings@) =~= text::views(list@));
    strings
}

/// The tokens from position `start` on without the model flags, and the path behind
/// the last of these, or `found` if there is none.
fn lift_model(list: &Vec<Vec<char>>, start: usize, found: Option<Vec<char>>) -> (lifted: (
    Vec<Vec<char>>,
    Option<Vec<char>>,
))
    requires
        start <= list@.len(),
    ensures
        text::views(lifted.0@) == without_model(text::views(list@).skip(start as int)),
        option_view(lifted.1) == last_model(
            text::views(list@).skip(start as int),
            option_view(found),
        ),
{
    let ghost all = text::views(list@);
    let mut kept: Vec<Vec<char>> = Vec::new();
    let mut model = found;
    let mut i: usize = start;
    assert(text::views(kept@) + without_model(all.skip(start as int)) =~= without_model(
        all.skip(start as int),
    ));
    while i < list.len()
        invariant
            start <= i <= list@.len(),
            all == text::views(list@),
            text::views(kept@) + without_model(all.skip(i as int)) == without_model(
                all.skip(start as int),
            ),
            last_model(all.skip(i as int), option_view(model)) == last_model(
                all.skip(start as int),
                option_view(found),
            ),
        decreases list@.len() - i,
    {
        let ghost rest = all.skip(i as int);
        assert(rest[0] == list@[i as int]@);
        if list.len() - i >= 2 && swap_yaml::model_flag(list[i].as_slice()) {
            assert(rest[1] == list@[i + 1]@);
            assert(rest.skip(2) =~= all.skip(i + 2));
            model = Some(text::copy_chars(strip_quotes(list[i + 1].as_slice())));
            i = i + 2;
        } else {
            let ghost earlier = kept@;
            kept.push(text::copy_chars(list[i].as_slice()));
            proof {
                text::lemma_views_push(earlier, kept@.last());
                assert(rest.drop_first() =~= all.skip(i + 1));
                assert(text::views(kept@) + without_model(all.skip(i + 1)) =~= text::views(earlier)
                    + without_model(rest));
            }
            i = i + 1;
        }
    }
    assert(text::views(kept@) + Seq::<Seq<char>>::empty() =~= text::views(kept@));
    (kept, model)
}

/// The characters in an optional value.
pub open spec fn option_view(value: Option<Vec<char>>) -> Option<Seq<char>> {
    match value {
        Some(chars) => Some(chars@),
        None => None,
    }
}

/// What `parse_cmd_block` gives, with texts as character sequences.
pub open spec fn parts_view(
    parts: Option<(String, Vec<Vec<String>>, Option<String>)>,
) -> Option<(Seq<char>, Seq<Seq<Seq<char>>>, Option<Seq<char>>)> {
    match parts {
        Some((binary, lines, model)) => Some((binary@, grid(lines@), swap_yaml::text_of(model))),
        None => None,
    }
}

/// Split an entry's command block into invocation, token lines and model path. The
/// invocation is everything up to and with the server binary token; `-m`/`--model`
/// pairs are lifted out; each remaining line becomes one list of quote-aware tokens, so
/// that line grouping survives a round trip. Without a recognizable server binary every
/// line holds flags, and the invocation is the bare binary. Returns `None` when the
/// entry has no command block.
pub fn parse_cmd_block(body: &[&str]) -> (parts: Option<
    (String, Vec<Vec<String>>, Option<String>),
>)
    ensures
        parts_view(parts) == cmd_parts(text::views(body@)),
{
    let lines = text::lines_of(body);
    let ghost all = text::views(lines@);
    assert(all.len() == lines@.len());
    let mut key: usize = 0;
    while key < lines.len() && !block_key(lines[key].as_slice())
        invariant
            key <= lines@.len(),
            all == text::views(lines@),
            forall|i: int| 0 <= i < key ==> !opens_block(#[trigger] all[i]),
        decreases lines@.len() - key,
    {
        assert(all[key as int] == lines@[key as int]@);
        key = key + 1;
    }
    proof {
        text::lemma_first_index_is(all, 0, |line: Seq<char>| opens_block(line), key as int);
    }
    if key >= lines.len() {
        return None;
    }
    let stop: usize = find_block_end(&lines, key, lines.len());
    assert(all.take(lines@.len() as int) =~= all);
    if stop == key + 1 {
        return None;
    }
    let list = tokenize_block(&lines, key + 1, stop);
    let ghost tokens = grid(list@);
    assert(tokens == block_tokens(all, key as int));
    let (at, last) = find_server_line(&list);
    let found_server = at < list.len();
    let binary: Vec<char> = if found_server {
        join_invocation(&list, at, last)
    } else {
        text::chars_of("llama-server")
    };
    let first: usize = if found_server {
        at
    } else {
        0
    };
    let ghost args = arguments(tokens);
    let mut flags: Vec<Vec<String>> = Vec::new();
    let mut model: Option<Vec<char>> = None;
    assert(grid(flags@) =~= flag_tokens(args.take(0)));
    for i in first..list.len()
        invariant
            first <= list@.len(),
            tokens == grid(list@),
            args == arguments(tokens),
            found_server == (at < list@.len()),
            at == server_line(tokens),
            found_server ==> first == at && last == server_index(tokens[at as int]) && last
                < list@[at as int]@.len(),
            !found_server ==> first == 0,
            grid(flags@) == flag_tokens(args.take(i - first)),
            option_view(model) == model_of(args.take(i - first)),
    {
        let start: usize = if found_server && i == at {
            last + 1
        } else {
            0
        };
        let ghost line = text::views(list@[i as int]@);
        proof {
            assert(tokens[i as int] == line);
            assert(args[i - first] =~= line.skip(start as int));
            assert(args.take(i + 1 - first).drop_last() =~= args.take(i - first));
            assert(args.take(i + 1 - first).last() == args[i - first]);
        }
        let (kept, path) = lift_model(&list[i], start, model);
        model = path;
        if kept.len() > 0 {
            let ghost earlier = flags@;
            flags.push(strings_of(&kept));
            proof {
                lemma_grid_push(earlier, flags@.last());
            }
        }
        assert(text::views(kept@).len() == kept@.len());
    }
    assert(args.take(list@.len() - first) =~= args);
    let path = match model {
        Some(path) => Some(text::string_of(path.as_slice())),
        None => None,
    };
    Some((text::string_of(binary.as_slice()), flags, path))
}

/// A run of spaces.
pub open spec fn spaces(n: nat) -> Seq<char> {
    Seq::new(n, |i: int| ' ')
}

/// The lines with `n` spaces before each.
pub open spec fn indented(body: Seq<Seq<char>>, n: nat) -> Seq<Seq<char>> {
    body.map_values(|line: Seq<char>| spaces(n) + line)
}

/// The first line of the entry at `span` that has the key `cmd:`, or the position behind
/// the entry if none has.
pub open spec fn cmd_line(lines: Seq<Seq<char>>, span: (int, int)) -> int {
    text::first_index(lines.take(span.1), span.0, |line: Seq<char>| has_cmd_key(line))
}

/// The lines with the block below the key on line `key`, which lies before `end`,
/// replaced by `body`, indented by two more than the key.
pub open spec fn with_block(
    lines: Seq<Seq<char>>,
    key: int,
    end: int,
    body: Seq<Seq<char>>,
) -> Seq<Seq<char>> {
    lines.take(key + 1) + indented(body, indent_of(lines[key]) + 2) + lines.skip(
        block_end(lines.take(end), key),
    )
}

/// The file with the block below the key on line `key`, which lies before `end`, replaced
/// by `body`. Every other line keeps its text and its own ending.
pub open spec fn with_block_text(
    file: Seq<char>,
    key: int,
    end: int,
    body: Seq<Seq<char>>,
) -> Seq<char> {
    let lines = text::lines(file);
    let raw = text::raw_lines(file);
    swap_yaml::text_of_lines(
        raw.take(key + 1) + indented(body, indent_of(lines[key]) + 2) + raw.skip(
            block_end(lines.take(end), key),
        ),
        swap_yaml::is_ended(file),
    )
}

/// Replace the `cmd:` block body of entry `id` with `new_body`, indented to match the
/// existing block. Text-level and deterministic; every other line of the file is
/// preserved byte for byte, with its own line ending.
pub fn replace_entry_cmd(file: &str, id: &str, new_body: &[String]) -> (result: Result<
    String,
    SwapYamlError,
>)
    ensures
        match result {
            Ok(updated) => match swap_yaml::span_of_entry(text::lines(file@), id@) {
                Some(span) => {
                    let lines = text::lines(file@);
                    let key = cmd_line(lines, span);
                    key < span.1 && updated@ == with_block_text(
                        file@,
                        key,
                        span.1,
                        text::views(new_body@),
                    )
                },
                None => false,
            },
            Err(SwapYamlError::NoModelsSection) => false,
            Err(SwapYamlError::ModelNotFound(missing)) => swap_yaml::span_of_entry(
                text::lines(file@),
                id@,
            ) is None && missing@ == id@,
            Err(SwapYamlError::NoCmdBlock(blockless)) => match swap_yaml::span_of_entry(
                text::lines(file@),
                id@,
            ) {
                Some(span) => cmd_line(text::lines(file@), span) == span.1 && blockless@ == id@,
                None => false,
            },
        },
{
    let chars = text::chars_of(file);
    let ended = chars.len() > 0 && chars[chars.len() - 1] == '\n';
    let lines = text::split_lines(chars.as_slice());
    let raw = text::split_raw_lines(chars.as_slice());
    let ghost all = text::views(lines@);
    let (start, end) = match swap_yaml::find_entry(&lines, text::chars_of(id).as_slice()) {
        Some(span) => span,
        None => {
            return Err(SwapYamlError::ModelNotFound(id.to_owned()));
        },
    };
    let ghost entry = all.take(end as int);
    let mut key: usize = start;
    while key < end && !cmd_key(lines[key].as_slice())
        invariant
            start <= key <= end <= lines@.len(),
            entry == text::views(lines@).take(end as int),
            forall|i: int| start <= i < key ==> !has_cmd_key(#[trigger] entry[i]),
        decreases end - key,
    {
        assert(entry[key as int] == lines@[key as int]@);
        key = key + 1;
    }
    proof {
        if key < end {
            assert(entry[key as int] == lines@[key as int]@);
        }
        text::lemma_first_index_is(
            entry,
            start as int,
            |line: Seq<char>| has_cmd_key(line),
            key as int,
        );
    }
    if key >= end {
        return Err(SwapYamlError::NoCmdBlock(id.to_owned()));
    }
    let stop: usize = find_block_end(&lines, key, end);
    let indent: u128 = indent_bytes(lines[key].as_slice());
    proof {
        assert(lines@[key as int]@.len() == lines@[key as int].len());
        text::lemma_trim_start(lines@[key as int]@);
        text::lemma_byte_len_at_least_len(
            lines@[key as int]@.take(
                lines@[key as int]@.len() - text::trim_start(lines@[key as int]@).len(),
            ),
        );
    }
    let mut updated: Vec<Vec<char>> = Vec::new();
    assert(raw@.len() == lines@.len());
    swap_yaml::append_lines(&mut updated, &raw, 0, key + 1);
    let ghost head = text::views(updated@);
    let ghost block = indented(text::views(new_body@), (indent + 2) as nat);
    for i in 0..new_body.len()
        invariant
            indent <= 4 * usize::MAX,
            block == indented(text::views(new_body@), (indent + 2) as nat),
            text::views(updated@) == head + block.take(i as int),
    {
        let ghost earlier = updated@;
        let mut line = spaces_of(indent + 2);
        text::append_chars(&mut line, text::chars_of(new_body[i].as_str()).as_slice());
        updated.push(line);
        proof {
            text::lemma_views_push(earlier, line);
            assert(line@ =~= block[i as int]);
            assert(text::views(updated@) =~= head + block.take(i + 1));
        }
    }
    swap_yaml::append_lines(&mut updated, &raw, stop, raw.len());
    assert(text::views(updated@) =~= text::views(raw@).take(key + 1) + block + text::views(
        raw@,
    ).skip(stop as int));
    Ok(swap_yaml::assemble(&updated, ended))
}

/// A run of spaces.
fn spaces_of(n: u128) -> (line: Vec<char>)
    ensures
        line@ == spaces(n as nat),
{
    let mut line: Vec<char> = Vec::new();
    let mut i: u128 = 0;
    while i < n
        invariant
            i <= n,
            line@ == spaces(i as nat),
        decreases n - i,
    {
        line.push(' ');
        assert(line@ =~= spaces((i + 1) as nat));
        i = i + 1;
    }
    line
}

} // verus!
