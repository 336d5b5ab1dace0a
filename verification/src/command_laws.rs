//! What a command is taken apart into: the invocation, the model path and the flags.

use crate::text_laws::is_gap;
use crate::{block_laws, cmd_block, round_trip, swap_yaml, text, text_laws, token_laws};
use crate::unquoted_laws;
use vstd::prelude::*;

verus! {

/// Whether a token announces that the model path follows.
pub open spec fn announces_model(token: Seq<char>) -> bool {
    token == "-m"@ || token == "--model"@
}

/// How many tokens at the end of a line announce a model path, one right behind the other.
pub open spec fn announcing_tail(list: Seq<Seq<char>>) -> nat
    decreases list.len(),
{
    if list.len() > 0 && announces_model(list.last()) {
        1 + announcing_tail(list.drop_last())
    } else {
        0
    }
}

/// Whether no token is waiting for a path at the end of these: each token that announces
/// one has been followed by it.
pub open spec fn is_settled(list: Seq<Seq<char>>) -> bool {
    announcing_tail(list) % 2 == 0
}

/// Whether no token that announces a model path is followed by another token.
pub open spec fn announces_nothing(list: Seq<Seq<char>>) -> bool {
    forall|i: int| 0 <= i < list.len() - 1 ==> !announces_model(#[trigger] list[i])
}

proof fn lemma_tail_bound(list: Seq<Seq<char>>)
    ensures
        announcing_tail(list) <= list.len(),
    decreases list.len(),
{
    if list.len() > 0 && announces_model(list.last()) {
        lemma_tail_bound(list.drop_last());
    }
}

proof fn lemma_tail_of_rest(list: Seq<Seq<char>>)
    requires
        list.len() > 0,
    ensures
        announcing_tail(list) < list.len() ==> announcing_tail(list.drop_first())
            == announcing_tail(list),
        announcing_tail(list) == list.len() ==> announcing_tail(list.drop_first()) + 1
            == list.len(),
        !announces_model(list[0]) ==> announcing_tail(list) < list.len(),
    decreases list.len(),
{
    lemma_tail_bound(list);
    if announces_model(list.last()) && list.len() > 1 {
        let shorter = list.drop_last();
        lemma_tail_of_rest(shorter);
        assert(list.drop_first().drop_last() =~= shorter.drop_first());
        assert(list.drop_first().last() == list.last());
    } else if list.len() > 1 {
        assert(list.drop_first().last() == list.last());
    }
}

proof fn lemma_settled_rest(list: Seq<Seq<char>>)
    requires
        is_settled(list),
        list.len() > 0,
    ensures
        !announces_model(list[0]) ==> is_settled(list.drop_first()),
        announces_model(list[0]) ==> list.len() >= 2 && is_settled(list.skip(2)),
{
    lemma_tail_of_rest(list);
    if announces_model(list[0]) {
        if list.len() == 1 {
            assert(list.last() == list[0]);
            assert(list.drop_last().len() == 0);
            assert(announcing_tail(list.drop_last()) == 0);
            assert(announcing_tail(list) == 1);
        }
        let rest = list.drop_first();
        lemma_tail_of_rest(rest);
        lemma_tail_bound(list);
        lemma_tail_bound(rest);
        assert(rest.drop_first() =~= list.skip(2));
        if announcing_tail(list) < list.len() && announcing_tail(list) == rest.len() {
            lemma_all_announce(rest);
            lemma_announcing(list);
        }
    }
}

proof fn lemma_all_announce(list: Seq<Seq<char>>)
    requires
        announcing_tail(list) == list.len(),
    ensures
        forall|i: int| 0 <= i < list.len() ==> announces_model(#[trigger] list[i]),
    decreases list.len(),
{
    if list.len() > 0 {
        lemma_all_announce(list.drop_last());
        assert forall|i: int| 0 <= i < list.len() implies announces_model(#[trigger] list[i]) by {
            if i < list.len() - 1 {
                assert(list[i] == list.drop_last()[i]);
            }
        }
    }
}

proof fn lemma_announcing(list: Seq<Seq<char>>)
    requires
        list.len() > 0,
        announces_model(list[0]),
        forall|i: int|
            0 <= i < list.drop_first().len() ==> announces_model(#[trigger] list.drop_first()[i]),
    ensures
        announcing_tail(list) == list.len(),
    decreases list.len(),
{
    if list.len() > 1 {
        let shorter = list.drop_last();
        assert(announces_model(list.drop_first()[list.len() - 2]));
        assert forall|i: int| 0 <= i < shorter.drop_first().len() implies announces_model(
            #[trigger] shorter.drop_first()[i],
        ) by {
            assert(announces_model(list.drop_first()[i]));
        }
        lemma_announcing(shorter);
    } else {
        assert(list.last() == list[0]);
        assert(list.drop_last().len() == 0);
        assert(announcing_tail(list.drop_last()) == 0);
    }
}

/// The tokens before a place where none is waiting for its path, and those behind it, are
/// taken apart on their own.
pub proof fn settled_tokens_stand_alone(
    head: Seq<Seq<char>>,
    rest: Seq<Seq<char>>,
    found: Option<Seq<char>>,
)
    requires
        is_settled(head),
    ensures
        cmd_block::without_model(head + rest) == cmd_block::without_model(head)
            + cmd_block::without_model(rest),
        cmd_block::last_model(head + rest, found) == cmd_block::last_model(
            rest,
            cmd_block::last_model(head, found),
        ),
    decreases head.len(),
{
    let all = head + rest;
    if head.len() == 0 {
        assert(all =~= rest);
        assert(cmd_block::without_model(head) + cmd_block::without_model(rest)
            =~= cmd_block::without_model(rest));
    } else {
        lemma_settled_rest(head);
        assert(all[0] == head[0]);
        if announces_model(head[0]) {
            assert(all[1] == head[1]);
            assert(all.skip(2) =~= head.skip(2) + rest);
            settled_tokens_stand_alone(
                head.skip(2),
                rest,
                Some(cmd_block::without_quotes(head[1])),
            );
        } else {
            assert(all.drop_first() =~= head.drop_first() + rest);
            settled_tokens_stand_alone(head.drop_first(), rest, found);
            assert(seq![head[0]] + (cmd_block::without_model(head.drop_first())
                + cmd_block::without_model(rest)) =~= (seq![head[0]] + cmd_block::without_model(
                head.drop_first(),
            )) + cmd_block::without_model(rest));
        }
    }
}

/// Where no pair announces a path, every token stays, and the path is the one that was
/// found before.
pub proof fn other_tokens_are_kept(list: Seq<Seq<char>>, found: Option<Seq<char>>)
    requires
        announces_nothing(list),
    ensures
        cmd_block::without_model(list) == list,
        cmd_block::last_model(list, found) == found,
{
    assert forall|i: int| 0 <= i < list.len() - 1 implies !swap_yaml::is_model_flag(
        #[trigger] list[i],
    ) by {
        assert(!announces_model(list[i]));
    }
    round_trip::lemma_without_model(list, found);
}

/// The model path of a line is the token behind its last `-m` or `--model`, without the
/// quotes around it. That pair leaves the line, and so do the pairs before it; every other
/// token stays. Which of the two words announces the path makes no difference.
pub proof fn last_pair_names_the_model(
    head: Seq<Seq<char>>,
    flag: Seq<char>,
    path: Seq<char>,
    tail: Seq<Seq<char>>,
    found: Option<Seq<char>>,
)
    requires
        is_settled(head),
        flag == "-m"@ || flag == "--model"@,
        announces_nothing(tail),
    ensures
        cmd_block::last_model(head + seq![flag, path] + tail, found) == Some(
            cmd_block::without_quotes(path),
        ),
        cmd_block::without_model(head + seq![flag, path] + tail) == cmd_block::without_model(head)
            + tail,
        announces_nothing(head) ==> cmd_block::without_model(head + seq![flag, path] + tail) == head
            + tail,
{
    let pair = seq![flag, path] + tail;
    let before = cmd_block::last_model(head, found);
    assert(head + seq![flag, path] + tail =~= head + pair);
    settled_tokens_stand_alone(head, pair, found);
    assert(pair.skip(2) =~= tail);
    assert(pair[0] == flag && pair[1] == path);
    other_tokens_are_kept(tail, Some(cmd_block::without_quotes(path)));
    assert(swap_yaml::is_model_flag(flag));
    if announces_nothing(head) {
        other_tokens_are_kept(head, found);
    }
}

/// One layer of quotes around a token is taken off; a token that does not start with a
/// quote, or does not end with the same one, is kept.
pub proof fn one_layer_of_quotes_is_taken(inner: Seq<char>, token: Seq<char>)
    ensures
        cmd_block::without_quotes(seq!['"'] + inner + seq!['"']) == inner,
        cmd_block::without_quotes(seq!['\''] + inner + seq!['\'']) == inner,
        token.len() == 0 || (token[0] != '"' && token[0] != '\'') || token.last() != token[0]
            || token.len() == 1 ==> cmd_block::without_quotes(token) == token,
{
    let double = seq!['"'] + inner + seq!['"'];
    let single = seq!['\''] + inner + seq!['\''];
    assert(double.subrange(1, double.len() - 1) =~= inner);
    assert(single.subrange(1, single.len() - 1) =~= inner);
}

/// The lines of a command, each with a space between its tokens.
pub open spec fn written(list: Seq<Seq<Seq<char>>>) -> Seq<Seq<char>> {
    list.map_values(|line: Seq<Seq<char>>| text::join(line, seq![' ']))
}

/// Whether every line has tokens, which hold neither white space nor quotes, and announces
/// no model path.
pub open spec fn are_plain(lines: Seq<Seq<Seq<char>>>) -> bool {
    forall|i: int|
        0 <= i < lines.len() ==> (#[trigger] lines[i]).len() > 0 && unquoted_laws::are_bare(
            lines[i],
        ) && announces_nothing(lines[i])
}

/// Lines of tokens without quotes, written with a space between the tokens, are read as
/// these tokens.
pub proof fn written_lines_are_read(list: Seq<Seq<Seq<char>>>)
    requires
        unquoted_laws::lines_are_bare(list),
    ensures
        block_laws::body_tokens(written(list)) == list,
        forall|i: int|
            0 <= i < list.len() && list[i].len() > 0 ==> !cmd_block::is_blank(
                #[trigger] written(list)[i],
            ),
{
    let body = written(list);
    assert forall|i: int| 0 <= i < list.len() implies block_laws::body_tokens(body)[i] == list[i]
        && (list[i].len() > 0 ==> !cmd_block::is_blank(#[trigger] body[i])) by {
        assert(unquoted_laws::are_bare(list[i]));
        unquoted_laws::lemma_bare_are_tokens(list[i]);
        token_laws::joined_tokens_read_back(list[i]);
        let s = text::join(list[i], seq![' ']);
        assert(body[i] == s);
        if list[i].len() > 0 {
            assert(s.len() > 0) by {
                assert(round_trip::is_bare(list[i][0]));
                if s.len() == 0 {
                    assert(cmd_block::tokens(s).len() == 0);
                }
            }
            text::lemma_trim_start(s);
            text::lemma_trim_end(text::trim_start(s));
            text::lemma_trim_end(s);
            assert(text::trim(s) == s);
            if text::trim_end(s).len() == 0 {
                assert(text::trim_start(s) == s);
            }
        }
    }
    assert(block_laws::body_tokens(body) =~= list);
}

/// A block below a `cmd:` key is read as its lines: from the line below the first key that
/// opens a block to the first line that is not indented deeper than the key.
pub proof fn nested_block_is_read(
    before: Seq<Seq<char>>,
    n: nat,
    marker: Seq<char>,
    body: Seq<Seq<char>>,
    after: Seq<Seq<char>>,
)
    requires
        forall|i: int|
            0 <= i < before.len() ==> !text::starts_with(
                text::trim_start(#[trigger] before[i]),
                "cmd:"@,
            ),
        body.len() > 0,
        text::trim(body.last()).len() > 0,
        after.len() > 0 ==> exists|m: nat, rest: Seq<char>|
            m <= n && rest.len() > 0 && !text::is_white(rest[0]) && after[0]
                == #[trigger] (cmd_block::spaces(m) + rest),
    ensures
        cmd_block::cmd_parts(
            before + seq![cmd_block::spaces(n) + "cmd: |"@ + marker] + cmd_block::indented(
                body,
                n + 2,
            ) + after,
        ) == Some(cmd_block::command_parts(block_laws::body_tokens(body))),
{
    let key = cmd_block::spaces(n) + "cmd: |"@ + marker;
    let part = cmd_block::indented(body, n + 2);
    let lines = before + seq![key] + part + after;
    let at = before.len() as int;
    let stop = at + 1 + body.len();
    lemma_block_key(n, marker);
    assert(lines[at] == key);
    let opens = |line: Seq<char>| cmd_block::opens_block(line);
    assert forall|i: int| 0 <= i < at implies !opens(#[trigger] lines[i]) by {
        assert(lines[i] == before[i]);
    }
    text::lemma_first_index_is(lines, 0, opens, at);
    let indent = cmd_block::indent_of(key);
    let ends = |line: Seq<char>| cmd_block::ends_block(line, indent);
    assert forall|i: int| at + 1 <= i < stop implies !ends(#[trigger] lines[i]) by {
        assert(lines[i] == cmd_block::spaces(n + 2) + body[i - at - 1]);
        block_laws::lemma_indented_line(n + 2, body[i - at - 1]);
    }
    if after.len() > 0 {
        let (m, rest) = choose|m: nat, rest: Seq<char>|
            m <= n && rest.len() > 0 && !text::is_white(rest[0]) && after[0] == #[trigger] (
            cmd_block::spaces(m) + rest);
        lemma_indent(m, rest);
        assert(lines[stop] == after[0]);
        assert(ends(lines[stop]));
    }
    text::lemma_first_index_is(lines, at + 1, ends, stop);
    assert(lines[stop - 1] == cmd_block::spaces(n + 2) + body.last());
    lemma_not_blank(body.last());
    block_laws::lemma_indented_line(n + 2, body.last());
    cmd_block::lemma_blank_tail(lines, at + 1, stop, stop);
    assert(cmd_block::block_end(lines, at) == stop);
    let list = cmd_block::block_tokens(lines, at);
    let wanted = block_laws::body_tokens(body);
    assert forall|i: int| 0 <= i < wanted.len() implies list[i] == #[trigger] wanted[i] by {
        assert(lines.subrange(at + 1, stop)[i] == cmd_block::spaces(n + 2) + body[i]);
        block_laws::lemma_indented_line(n + 2, body[i]);
    }
    assert(list =~= wanted);
}

pub proof fn lemma_not_blank(line: Seq<char>)
    requires
        text::trim(line).len() > 0,
    ensures
        !cmd_block::is_blank(line),
{
    let kept = text::trim_start(line);
    text::lemma_trim_start(line);
    text::lemma_trim_end(kept);
    text::lemma_trim_end(line);
    if cmd_block::is_blank(line) {
        let at = line.len() - kept.len();
        assert(kept[0] == line[at]);
        assert(text::is_white(line[at]));
    }
}

/// The white space before the first other character is the indent.
pub proof fn lemma_indent(m: nat, rest: Seq<char>)
    requires
        rest.len() > 0,
        !text::is_white(rest[0]),
    ensures
        text::trim_start(cmd_block::spaces(m) + rest) == rest,
        cmd_block::indent_of(cmd_block::spaces(m) + rest) == m,
        !cmd_block::is_blank(cmd_block::spaces(m) + rest),
{
    let gap = cmd_block::spaces(m);
    let line = gap + rest;
    assert(is_gap(gap));
    text_laws::leading_gap_is_trimmed(gap, rest);
    assert(line.take(line.len() - rest.len()) =~= gap);
    lemma_spaces_bytes(m);
    text::lemma_trim_end(line);
    if cmd_block::is_blank(line) {
        assert(text::is_white(line[m as int]));
    }
}

proof fn lemma_spaces_bytes(m: nat)
    ensures
        text::byte_len(cmd_block::spaces(m)) == m,
    decreases m,
{
    let s = cmd_block::spaces(m);
    if m > 0 {
        let less = cmd_block::spaces((m - 1) as nat);
        lemma_spaces_bytes((m - 1) as nat);
        assert(s =~= seq![' '] + less);
        text::lemma_byte_len_concat(seq![' '], less);
        assert(text::byte_len(seq![' ']) == 1) by {
            reveal_with_fuel(text::byte_len, 2);
        }
    }
}

proof fn lemma_block_key(n: nat, marker: Seq<char>)
    ensures
        cmd_block::opens_block(cmd_block::spaces(n) + "cmd: |"@ + marker),
        cmd_block::indent_of(cmd_block::spaces(n) + "cmd: |"@ + marker) == n,
{
    reveal_strlit("cmd: |");
    reveal_strlit("cmd:");
    let rest = "cmd: |"@ + marker;
    let line = cmd_block::spaces(n) + "cmd: |"@ + marker;
    assert(line =~= cmd_block::spaces(n) + rest);
    lemma_indent(n, rest);
    assert(rest.take(4) =~= "cmd:"@);
    let value = rest.skip(4);
    let kept = seq!['|'] + marker;
    assert(value =~= seq![' '] + kept);
    assert(is_gap(seq![' ']));
    text_laws::leading_gap_is_trimmed(seq![' '], kept);
    text::lemma_trim_end(kept);
    if text::trim_end(kept).len() == 0 {
        assert(text::is_white(kept[0]));
    }
}

/// A token names the server where it ends in `server`, with closing braces behind that or
/// none, or where the name of the executable is `llama-server-` and more without a dot,
/// and the token sets nothing.
pub proof fn server_names_are_known(
    before: Seq<char>,
    braces: nat,
    dir: Seq<char>,
    variant: Seq<char>,
)
    requires
        !variant.contains('/'),
        !variant.contains('.'),
        !variant.contains('='),
        !dir.contains('='),
    ensures
        cmd_block::is_server(before + "server"@ + Seq::new(braces, |i: int| '}')),
        cmd_block::is_server("llama-server-"@ + variant),
        cmd_block::is_server(dir + seq!['/'] + "llama-server-"@ + variant),
{
    let name = before + "server"@;
    let token = name + Seq::new(braces, |i: int| '}');
    reveal_strlit("server");
    reveal_strlit("llama-server-");
    lemma_braces(name, braces);
    assert(name.skip(name.len() - 6) =~= "server"@);
    let file = "llama-server-"@ + variant;
    lemma_holds_none(file, "llama-server-"@, variant);
    let full = dir + seq!['/'] + file;
    assert(dir + seq!['/'] + "llama-server-"@ + variant =~= full);
    text_laws::last_separator_parts(dir, '/', file);
    text_laws::ends_are_found("llama-server-"@, variant);
    assert(!full.contains('=')) by {
        if full.contains('=') {
            let k = choose|k: int| 0 <= k < full.len() && full[k] == '=';
            if k < dir.len() {
                assert(dir[k] == '=');
            } else if k > dir.len() {
                assert(file[k - dir.len() - 1] == '=');
            }
        }
    }
}

proof fn lemma_holds_none(file: Seq<char>, a: Seq<char>, variant: Seq<char>)
    requires
        a == "llama-server-"@,
        file == a + variant,
        !variant.contains('/'),
        !variant.contains('.'),
        !variant.contains('='),
    ensures
        !file.contains('/'),
        !file.contains('.'),
        !file.contains('='),
{
    reveal_strlit("llama-server-");
    assert forall|k: int| 0 <= k < file.len() implies file[k] != '/' && file[k] != '.' && file[k]
        != '=' by {
        if k >= a.len() {
            assert(file[k] == variant[k - a.len()]);
            assert(variant.contains(file[k]));
        }
    }
}

proof fn lemma_braces(name: Seq<char>, braces: nat)
    requires
        name.len() > 0,
        name.last() != '}',
    ensures
        cmd_block::without_braces(name + Seq::new(braces, |i: int| '}')) == name,
    decreases braces,
{
    let s = name + Seq::new(braces, |i: int| '}');
    if braces == 0 {
        assert(s =~= name);
    } else {
        lemma_braces(name, (braces - 1) as nat);
        assert(s.drop_last() =~= name + Seq::new((braces - 1) as nat, |i: int| '}'));
    }
}

/// A token that does not end in `server`, apart from closing braces, names no server unless
/// its executable is a variant; an executable with a dot in its name, or a token that sets
/// something, is no variant.
pub proof fn other_names_are_no_servers(name: Seq<char>, braces: nat)
    requires
        name.len() == 0 || (name.last() != '}' && !text::ends_with(name, "server"@)),
        text::behind_last(name + Seq::new(braces, |i: int| '}'), '/').contains('.') || (name
            + Seq::new(braces, |i: int| '}')).contains('=') || !text::starts_with(
            text::behind_last(name + Seq::new(braces, |i: int| '}'), '/'),
            "llama-server-"@,
        ),
    ensures
        !cmd_block::is_server(name + Seq::new(braces, |i: int| '}')),
{
    let token = name + Seq::new(braces, |i: int| '}');
    reveal_strlit("server");
    if name.len() > 0 {
        lemma_braces(name, braces);
    } else {
        lemma_only_braces(braces);
        assert(token =~= Seq::new(braces, |i: int| '}'));
    }
}

proof fn lemma_only_braces(braces: nat)
    ensures
        cmd_block::without_braces(Seq::new(braces, |i: int| '}')).len() == 0,
    decreases braces,
{
    let s = Seq::new(braces, |i: int| '}');
    if braces > 0 {
        lemma_only_braces((braces - 1) as nat);
        assert(s.drop_last() =~= Seq::new((braces - 1) as nat, |i: int| '}'));
    }
}

/// The tokens up to the first that names a server are the invocation, with a space between
/// them, and the tokens behind it are the arguments.
pub proof fn first_server_ends_the_invocation(
    wrapper: Seq<Seq<char>>,
    server: Seq<char>,
    args: Seq<Seq<char>>,
    lines: Seq<Seq<Seq<char>>>,
)
    requires
        forall|i: int| 0 <= i < wrapper.len() ==> !cmd_block::is_server(#[trigger] wrapper[i]),
        cmd_block::is_server(server),
    ensures
        cmd_block::invocation(seq![wrapper + seq![server] + args] + lines) == text::join(
            wrapper + seq![server],
            seq![' '],
        ),
        cmd_block::arguments(seq![wrapper + seq![server] + args] + lines) == seq![args] + lines,
{
    let first = wrapper + seq![server] + args;
    let list = seq![first] + lines;
    let n = wrapper.len() as int;
    let serves = |token: Seq<char>| cmd_block::is_server(token);
    assert forall|i: int| 0 <= i < n implies !serves(#[trigger] first[i]) by {
        assert(first[i] == wrapper[i]);
    }
    assert(first[n] == server);
    text::lemma_first_index_is(first, 0, serves, n);
    assert(list[0] == first);
    assert(cmd_block::server_line(list) == 0);
    assert(list.take(0) =~= Seq::<Seq<Seq<char>>>::empty());
    assert(cmd_block::all_tokens(list.take(0)) + first.take(n + 1) =~= wrapper + seq![server]);
    assert(first.skip(n + 1) =~= args);
    assert(list.skip(1) =~= lines);
}

/// Lines without a server belong to the invocation where a line with one follows.
pub proof fn lines_before_the_server_wrap_it(
    early: Seq<Seq<Seq<char>>>,
    wrapper: Seq<Seq<char>>,
    server: Seq<char>,
    args: Seq<Seq<char>>,
    lines: Seq<Seq<Seq<char>>>,
)
    requires
        forall|i: int, j: int|
            0 <= i < early.len() && 0 <= j < early[i].len() ==> !cmd_block::is_server(
                #[trigger] early[i][j],
            ),
        forall|i: int| 0 <= i < wrapper.len() ==> !cmd_block::is_server(#[trigger] wrapper[i]),
        cmd_block::is_server(server),
    ensures
        cmd_block::invocation(early + seq![wrapper + seq![server] + args] + lines) == text::join(
            early.flatten() + wrapper + seq![server],
            seq![' '],
        ),
        cmd_block::arguments(early + seq![wrapper + seq![server] + args] + lines) == seq![args]
            + lines,
{
    let next = wrapper + seq![server] + args;
    let list = early + seq![next] + lines;
    let n = wrapper.len() as int;
    let at = early.len() as int;
    let serves = |token: Seq<char>| cmd_block::is_server(token);
    assert forall|i: int| 0 <= i < n implies !serves(#[trigger] next[i]) by {
        assert(next[i] == wrapper[i]);
    }
    assert(next[n] == server);
    text::lemma_first_index_is(next, 0, serves, n);
    lemma_first_server(early, next, lines);
    assert(list[at] == next);
    assert(list.take(at) =~= early);
    lemma_flattened(early);
    assert(cmd_block::all_tokens(early) + next.take(n + 1) =~= early.flatten() + wrapper
        + seq![server]);
    assert(next.skip(n + 1) =~= args);
    assert(list.skip(at + 1) =~= lines);
}

proof fn lemma_first_server(
    early: Seq<Seq<Seq<char>>>,
    next: Seq<Seq<char>>,
    lines: Seq<Seq<Seq<char>>>,
)
    requires
        forall|i: int, j: int|
            0 <= i < early.len() && 0 <= j < early[i].len() ==> !cmd_block::is_server(
                #[trigger] early[i][j],
            ),
        cmd_block::server_index(next) < next.len(),
    ensures
        cmd_block::server_line(early + seq![next] + lines) == early.len(),
    decreases early.len(),
{
    let list = early + seq![next] + lines;
    if early.len() == 0 {
        assert(list[0] == next);
    } else {
        let serves = |token: Seq<char>| cmd_block::is_server(token);
        let rest = early.drop_first();
        assert(list[0] == early[0]);
        assert forall|j: int| 0 <= j < early[0].len() implies !serves(#[trigger] early[0][j]) by {
            assert(!cmd_block::is_server(early[0][j]));
        }
        text::lemma_first_index_is(early[0], 0, serves, early[0].len() as int);
        assert forall|i: int, j: int| 0 <= i < rest.len() && 0 <= j < rest[i].len() implies
            !cmd_block::is_server(#[trigger] rest[i][j]) by {
            assert(rest[i][j] == early[i + 1][j]);
        }
        lemma_first_server(rest, next, lines);
        assert(list.drop_first() =~= rest + seq![next] + lines);
    }
}

proof fn lemma_flattened(lines: Seq<Seq<Seq<char>>>)
    ensures
        cmd_block::all_tokens(lines) == lines.flatten(),
{
    lemma_flattened_alt(lines);
    lines.lemma_flatten_and_flatten_alt_are_equivalent();
}

proof fn lemma_flattened_alt(lines: Seq<Seq<Seq<char>>>)
    ensures
        cmd_block::all_tokens(lines) == lines.flatten_alt(),
    decreases lines.len(),
{
    if lines.len() > 0 {
        lemma_flattened_alt(lines.drop_last());
    }
}

/// A command that names no server is all arguments, and is run by `llama-server`.
pub proof fn without_server_all_are_arguments(list: Seq<Seq<Seq<char>>>)
    requires
        forall|i: int, j: int|
            0 <= i < list.len() && 0 <= j < list[i].len() ==> !cmd_block::is_server(
                #[trigger] list[i][j],
            ),
    ensures
        cmd_block::invocation(list) == "llama-server"@,
        cmd_block::arguments(list) == list,
{
    lemma_no_server(list);
}

proof fn lemma_no_server(list: Seq<Seq<Seq<char>>>)
    requires
        forall|i: int, j: int|
            0 <= i < list.len() && 0 <= j < list[i].len() ==> !cmd_block::is_server(
                #[trigger] list[i][j],
            ),
    ensures
        cmd_block::server_line(list) == list.len(),
    decreases list.len(),
{
    if list.len() > 0 {
        let serves = |token: Seq<char>| cmd_block::is_server(token);
        text::lemma_first_index_is(list[0], 0, serves, list[0].len() as int);
        let rest = list.drop_first();
        assert forall|i: int, j: int| 0 <= i < rest.len() && 0 <= j < rest[i].len() implies
            !cmd_block::is_server(#[trigger] rest[i][j]) by {
            assert(rest[i][j] == list[i + 1][j]);
        }
        lemma_no_server(rest);
    }
}

/// Line by line: a line keeps what no pair takes from it, is dropped where nothing is left,
/// and the last pair of all lines names the model.
pub proof fn argument_lines_are_taken_in_turn(
    before: Seq<Seq<Seq<char>>>,
    head: Seq<Seq<char>>,
    flag: Seq<char>,
    path: Seq<char>,
    tail: Seq<Seq<char>>,
    after: Seq<Seq<Seq<char>>>,
)
    requires
        flag == "-m"@ || flag == "--model"@,
        is_settled(head),
        announces_nothing(tail),
        forall|i: int|
            0 <= i < after.len() ==> (#[trigger] after[i]).len() > 0 && announces_nothing(after[i]),
    ensures
        ({
            let lines = before + seq![head + seq![flag, path] + tail] + after;
            let left = cmd_block::without_model(head) + tail;
            &&& cmd_block::model_of(lines) == Some(cmd_block::without_quotes(path))
            &&& cmd_block::flag_tokens(lines) == cmd_block::flag_tokens(before) + (if left.len()
                > 0 {
                seq![left]
            } else {
                Seq::empty()
            }) + after
        }),
{
    let line = head + seq![flag, path] + tail;
    let first = before.push(line);
    let lines = before + seq![line] + after;
    assert(lines =~= first + after);
    assert forall|i: int| 0 <= i < after.len() implies (#[trigger] after[i]).len() > 0
        && round_trip::keeps_model(after[i]) by {
        lemma_keeps(after[i]);
    }
    round_trip::lemma_lift_concat(first, after);
    assert(first.drop_last() =~= before);
    last_pair_names_the_model(head, flag, path, tail, cmd_block::model_of(before));
    let left = cmd_block::without_model(head) + tail;
    if left.len() > 0 {
        assert(cmd_block::flag_tokens(before).push(left) =~= cmd_block::flag_tokens(before)
            + seq![left]);
    } else {
        assert(cmd_block::flag_tokens(before) =~= cmd_block::flag_tokens(before)
            + Seq::<Seq<Seq<char>>>::empty());
    }
}

proof fn lemma_keeps(list: Seq<Seq<char>>)
    requires
        announces_nothing(list),
    ensures
        round_trip::keeps_model(list),
{
    assert forall|i: int| 0 <= i < list.len() - 1 implies !swap_yaml::is_model_flag(
        #[trigger] list[i],
    ) by {
        assert(!announces_model(list[i]));
    }
}

proof fn lemma_kept(before: Seq<Seq<Seq<char>>>)
    requires
        are_plain(before),
    ensures
        cmd_block::flag_tokens(before) == before,
        cmd_block::model_of(before) is None,
{
    let none = Seq::<Seq<Seq<char>>>::empty();
    assert forall|i: int| 0 <= i < before.len() implies (#[trigger] before[i]).len() > 0
        && round_trip::keeps_model(before[i]) by {
        lemma_keeps(before[i]);
    }
    round_trip::lemma_lift_concat(none, before);
    assert(none + before =~= before);
    assert(cmd_block::flag_tokens(none) + before =~= before);
}

/// The command that is written below a `cmd:` key with the server on its first line and a
/// model path on a later one is read as that server, that path, and all other tokens.
pub proof fn written_command_is_read(
    wrapper: Seq<Seq<char>>,
    server: Seq<char>,
    before: Seq<Seq<Seq<char>>>,
    head: Seq<Seq<char>>,
    flag: Seq<char>,
    path: Seq<char>,
    tail: Seq<Seq<char>>,
    after: Seq<Seq<Seq<char>>>,
)
    requires
        unquoted_laws::are_bare(wrapper),
        round_trip::is_bare(server),
        forall|i: int| 0 <= i < wrapper.len() ==> !cmd_block::is_server(#[trigger] wrapper[i]),
        text::ends_with(server, "server"@),
        are_plain(before),
        unquoted_laws::are_bare(head),
        forall|i: int| 0 <= i < head.len() ==> !announces_model(#[trigger] head[i]),
        flag == "-m"@ || flag == "--model"@,
        round_trip::is_bare(path),
        unquoted_laws::are_bare(tail),
        announces_nothing(tail),
        are_plain(after),
    ensures
        cmd_block::cmd_parts(
            seq!["cmd: |"@] + cmd_block::indented(
                written(
                    seq![wrapper + seq![server]] + before + seq![head + seq![flag, path] + tail]
                        + after,
                ),
                2,
            ),
        ) == Some(
            (
                text::join(wrapper + seq![server], seq![' ']),
                before + (if head.len() + tail.len() > 0 {
                    seq![head + tail]
                } else {
                    Seq::empty()
                }) + after,
                Some(path),
            ),
        ),
{
    let line = head + seq![flag, path] + tail;
    let rest = before + seq![line] + after;
    let none = Seq::<Seq<char>>::empty();
    let list = seq![wrapper + seq![server]] + before + seq![line] + after;
    assert(round_trip::is_bare(flag)) by {
        reveal_strlit("-m");
        reveal_strlit("--model");
    }
    assert(wrapper + seq![server] + none =~= wrapper + seq![server]);
    assert(list =~= seq![wrapper + seq![server] + none] + rest);
    lemma_ends_in_server(server);
    first_server_ends_the_invocation(wrapper, server, none, rest);
    let args = cmd_block::arguments(list);
    let front = seq![none] + before;
    assert(args =~= front + seq![line] + after);
    lemma_settled(head);
    assert forall|i: int| 0 <= i < after.len() implies (#[trigger] after[i]).len() > 0
        && announces_nothing(after[i]) by {}
    argument_lines_are_taken_in_turn(front, head, flag, path, tail, after);
    other_tokens_are_kept(head, None);
    lemma_kept_behind(before);
    round_trip::lemma_bare_token(path);
    assert(unquoted_laws::are_bare(line)) by {
        assert forall|i: int| 0 <= i < line.len() implies round_trip::is_bare(
            #[trigger] line[i],
        ) by {
            let n = head.len() as int;
            if i < n {
                assert(line[i] == head[i]);
            } else if i > n + 1 {
                assert(line[i] == tail[i - n - 2]);
            }
        }
    }
    assert(unquoted_laws::are_bare(wrapper + seq![server])) by {
        assert forall|i: int| 0 <= i < wrapper.len() + 1 implies round_trip::is_bare(
            #[trigger] (wrapper + seq![server])[i],
        ) by {
            if i < wrapper.len() {
                assert((wrapper + seq![server])[i] == wrapper[i]);
            }
        }
    }
    assert forall|i: int| 0 <= i < list.len() implies unquoted_laws::are_bare(#[trigger] list[i])
        && list[i].len() > 0 by {
        let n = before.len() as int;
        if 1 <= i <= n {
            assert(list[i] == before[i - 1]);
        } else if i > n + 1 {
            assert(list[i] == after[i - n - 2]);
        }
    }
    written_lines_are_read(list);
    let last = list.len() - 1;
    assert(list[last].len() > 0);
    assert(written(list).last() == written(list)[last]);
    unquoted_laws::written_block_is_read(written(list));
}

proof fn lemma_kept_behind(before: Seq<Seq<Seq<char>>>)
    requires
        are_plain(before),
    ensures
        cmd_block::flag_tokens(seq![Seq::<Seq<char>>::empty()] + before) == before,
        cmd_block::model_of(seq![Seq::<Seq<char>>::empty()] + before) is None,
{
    let none = seq![Seq::<Seq<char>>::empty()];
    assert forall|i: int| 0 <= i < before.len() implies (#[trigger] before[i]).len() > 0
        && round_trip::keeps_model(before[i]) by {
        lemma_keeps(before[i]);
    }
    round_trip::lemma_lift_concat(none, before);
    assert(none.drop_last() =~= Seq::<Seq<Seq<char>>>::empty());
    reveal_with_fuel(cmd_block::flag_tokens, 2);
    reveal_with_fuel(cmd_block::model_of, 2);
    reveal_with_fuel(cmd_block::without_model, 2);
    reveal_with_fuel(cmd_block::last_model, 2);
    assert(cmd_block::flag_tokens(none) + before =~= before);
}

proof fn lemma_settled(head: Seq<Seq<char>>)
    requires
        forall|i: int| 0 <= i < head.len() ==> !announces_model(#[trigger] head[i]),
    ensures
        is_settled(head),
        announces_nothing(head),
{
    if head.len() > 0 {
        assert(!announces_model(head[head.len() - 1]));
    }
}

proof fn lemma_ends_in_server(server: Seq<char>)
    requires
        text::ends_with(server, "server"@),
    ensures
        cmd_block::is_server(server),
{
    reveal_strlit("server");
    assert(server.skip(server.len() - 6).last() == server.last());
    assert(server.last() == 'r');
}

/// A command that is written without a model path is read without one, with all of its
/// tokens behind the server, or all of them where there is no server.
pub proof fn written_flags_are_read(
    wrapper: Seq<Seq<char>>,
    server: Seq<char>,
    args: Seq<Seq<char>>,
    lines: Seq<Seq<Seq<char>>>,
)
    requires
        unquoted_laws::are_bare(wrapper),
        round_trip::is_bare(server),
        forall|i: int| 0 <= i < wrapper.len() ==> !cmd_block::is_server(#[trigger] wrapper[i]),
        cmd_block::is_server(server),
        are_plain(seq![args] + lines),
    ensures
        cmd_block::cmd_parts(
            seq!["cmd: |"@] + cmd_block::indented(
                written(seq![wrapper + seq![server] + args] + lines),
                2,
            ),
        ) == Some(
            (
                text::join(wrapper + seq![server], seq![' ']),
                seq![args] + lines,
                None::<Seq<char>>,
            ),
        ),
{
    let first = wrapper + seq![server] + args;
    let list = seq![first] + lines;
    let rest = seq![args] + lines;
    first_server_ends_the_invocation(wrapper, server, args, lines);
    lemma_kept(rest);
    assert(rest[0] == args);
    assert forall|i: int| 0 <= i < first.len() implies round_trip::is_bare(#[trigger] first[i]) by {
        let n = wrapper.len() as int;
        if i < n {
            assert(first[i] == wrapper[i]);
        } else if i > n {
            assert(first[i] == args[i - n - 1]);
        }
    }
    assert forall|i: int| 0 <= i < list.len() implies unquoted_laws::are_bare(#[trigger] list[i])
        && list[i].len() > 0 by {
        if i > 0 {
            assert(list[i] == rest[i]);
        }
    }
    written_lines_are_read(list);
    let last = list.len() - 1;
    assert(list[last].len() > 0);
    assert(written(list).last() == written(list)[last]);
    unquoted_laws::written_block_is_read(written(list));
}

/// Whether a text holds neither white space nor a quote; it may be empty.
pub open spec fn is_plain_run(s: Seq<char>) -> bool {
    forall|k: int|
        0 <= k < s.len() ==> !text::is_white(#[trigger] s[k]) && s[k] != '"' && s[k] != '\''
}

proof fn lemma_run(a: Seq<char>, rest: Seq<char>)
    requires
        is_plain_run(a),
    ensures
        cmd_block::token_len(a + rest, None) == a.len() + cmd_block::token_len(rest, None),
        token_laws::quote_behind(a + rest, None) == token_laws::quote_behind(rest, None),
    decreases a.len(),
{
    let s = a + rest;
    if a.len() == 0 {
        assert(s =~= rest);
    } else {
        assert(!text::is_white(a[0]) && a[0] != '"' && a[0] != '\'');
        let tail = a.drop_first();
        assert forall|k: int| 0 <= k < tail.len() implies !text::is_white(#[trigger] tail[k])
            && tail[k] != '"' && tail[k] != '\'' by {
            assert(tail[k] == a[k + 1]);
        }
        lemma_run(tail, rest);
        assert(s.drop_first() =~= tail + rest);
        assert(s[0] == a[0]);
    }
}

proof fn lemma_inside(t: Seq<char>, q: char, rest: Seq<char>)
    requires
        q == '"' || q == '\'',
        !t.contains(q),
    ensures
        cmd_block::token_len(t + seq![q] + rest, Some(q)) == t.len() + 1 + cmd_block::token_len(
            rest,
            None,
        ),
        token_laws::quote_behind(t + seq![q] + rest, Some(q)) == token_laws::quote_behind(
            rest,
            None,
        ),
    decreases t.len(),
{
    let s = t + seq![q] + rest;
    if t.len() == 0 {
        assert(s[0] == q);
        assert(s.drop_first() =~= rest);
    } else {
        let tail = t.drop_first();
        assert(t.contains(t[0]));
        assert(!tail.contains(q)) by {
            if tail.contains(q) {
                let k = choose|k: int| 0 <= k < tail.len() && tail[k] == q;
                assert(t[k + 1] == q);
            }
        }
        lemma_inside(tail, q, rest);
        assert(s.drop_first() =~= tail + seq![q] + rest);
        assert(s[0] == t[0]);
    }
}

/// A quoted span is part of one token, with all of the white space and the other kind of
/// quotes in it, and with what stands right before and behind it; the tokens around it are
/// told apart at their spaces.
pub proof fn quoted_spans_are_kept_together(
    head: Seq<Seq<char>>,
    a: Seq<char>,
    q: char,
    t: Seq<char>,
    b: Seq<char>,
    tail: Seq<Seq<char>>,
)
    requires
        unquoted_laws::are_bare(head),
        is_plain_run(a),
        q == '"' || q == '\'',
        !t.contains(q),
        is_plain_run(b),
        unquoted_laws::are_bare(tail),
    ensures
        ({
            let list = head + seq![a + seq![q] + t + seq![q] + b] + tail;
            cmd_block::tokens(text::join(list, seq![' '])) == list
        }),
        cmd_block::without_quotes(seq![q] + t + seq![q]) == t,
{
    let none = Seq::<char>::empty();
    let word = a + seq![q] + t + seq![q] + b;
    let rest = seq![q] + (t + seq![q] + b);
    let list = head + seq![word] + tail;
    assert(word =~= a + rest);
    assert(rest.drop_first() =~= t + seq![q] + b);
    assert(rest[0] == q);
    lemma_run(a, rest);
    lemma_inside(t, q, b);
    lemma_run(b, none);
    assert(b + none =~= b);
    assert(!text::is_white(q));
    assert(token_laws::is_token(word));
    assert(token_laws::is_closed(word));
    assert(!text::is_white(word.last())) by {
        if b.len() > 0 {
            assert(word.last() == b[b.len() - 1]);
        } else {
            assert(word.last() == q);
        }
    }
    unquoted_laws::lemma_bare_are_tokens(head);
    unquoted_laws::lemma_bare_are_tokens(tail);
    assert(token_laws::are_line_tokens(list)) by {
        let n = head.len() as int;
        assert forall|i: int| 0 <= i < list.len() implies token_laws::is_token(#[trigger] list[i])
            && !text::is_white(list[i].last()) && token_laws::is_closed(list[i]) by {
            if i < n {
                assert(list[i] == head[i]);
                round_trip::lemma_bare_token(head[i]);
            } else if i > n {
                assert(list[i] == tail[i - n - 1]);
                round_trip::lemma_bare_token(tail[i - n - 1]);
            }
        }
    }
    token_laws::joined_tokens_read_back(list);
    one_layer_of_quotes_is_taken(t, t);
}

/// A quote that is not closed takes the rest of the line into its token.
pub proof fn open_quote_takes_the_rest(head: Seq<Seq<char>>, a: Seq<char>, q: char, t: Seq<char>)
    requires
        unquoted_laws::are_bare(head),
        is_plain_run(a),
        q == '"' || q == '\'',
        !t.contains(q),
        t.len() > 0 ==> !text::is_white(t.last()),
    ensures
        ({
            let list = head + seq![a + seq![q] + t];
            cmd_block::tokens(text::join(list, seq![' '])) == list
        }),
{
    let word = a + seq![q] + t;
    let rest = seq![q] + t;
    let list = head + seq![word];
    assert(word =~= a + rest);
    assert(rest.drop_first() =~= t);
    assert(rest[0] == q);
    lemma_run(a, rest);
    lemma_open(t, q);
    assert(!text::is_white(q));
    assert(!text::is_white(word.last())) by {
        if t.len() > 0 {
            assert(word.last() == t.last());
        } else {
            assert(word.last() == q);
        }
    }
    unquoted_laws::lemma_bare_are_tokens(head);
    assert(token_laws::are_line_tokens(list)) by {
        let n = head.len() as int;
        assert forall|i: int| 0 <= i < list.len() implies token_laws::is_token(#[trigger] list[i])
            && !text::is_white(list[i].last()) by {
            if i < n {
                assert(list[i] == head[i]);
            }
        }
        assert forall|i: int| 0 <= i < list.len() - 1 implies token_laws::is_closed(
            #[trigger] list[i],
        ) by {
            assert(list[i] == head[i]);
            round_trip::lemma_bare_token(head[i]);
        }
    }
    token_laws::joined_tokens_read_back(list);
}

proof fn lemma_open(t: Seq<char>, q: char)
    requires
        q == '"' || q == '\'',
        !t.contains(q),
    ensures
        cmd_block::token_len(t, Some(q)) == t.len(),
    decreases t.len(),
{
    if t.len() > 0 {
        let tail = t.drop_first();
        assert(t.contains(t[0]));
        assert(!tail.contains(q)) by {
            if tail.contains(q) {
                let k = choose|k: int| 0 <= k < tail.len() && tail[k] == q;
                assert(t[k + 1] == q);
            }
        }
        lemma_open(tail, q);
    }
}

/// Lines that are indented keep their number and their text, and have that many spaces
/// before it.
pub proof fn indented_lines_have_their_spaces(body: Seq<Seq<char>>, n: nat, i: int, k: int)
    requires
        0 <= i < body.len(),
    ensures
        cmd_block::indented(body, n).len() == body.len(),
        cmd_block::indented(body, n)[i].len() == n + body[i].len(),
        0 <= k < n ==> cmd_block::indented(body, n)[i][k] == ' ',
        0 <= k < body[i].len() ==> cmd_block::indented(body, n)[i][n + k] == body[i][k],
        cmd_block::spaces(n).len() == n,
        0 <= k < n ==> cmd_block::spaces(n)[k] == ' ',
{
}

/// An entry has no command where no line of it has the key `cmd:` with the mark of a block
/// behind it, and where nothing stands below that line.
pub proof fn entry_without_block_has_no_command(
    lines: Seq<Seq<char>>,
    before: Seq<Seq<char>>,
    n: nat,
    after: Seq<Seq<char>>,
)
    requires
        forall|i: int|
            0 <= i < lines.len() ==> !text::starts_with(
                text::trim_start(#[trigger] lines[i]),
                "cmd:"@,
            ) || !text::starts_with_char(text::trim(text::trim_start(lines[i]).skip(4)), '|'),
        forall|i: int|
            0 <= i < before.len() ==> !text::starts_with(
                text::trim_start(#[trigger] before[i]),
                "cmd:"@,
            ),
        forall|i: int| 0 <= i < after.len() ==> is_gap(#[trigger] after[i]),
    ensures
        cmd_block::cmd_parts(lines) is None,
        cmd_block::cmd_parts(before + seq![cmd_block::spaces(n) + "cmd: |"@] + after) is None,
{
    let opens = |line: Seq<char>| cmd_block::opens_block(line);
    assert forall|i: int| 0 <= i < lines.len() implies !opens(#[trigger] lines[i]) by {}
    text::lemma_first_index_is(lines, 0, opens, lines.len() as int);
    let none = Seq::<char>::empty();
    let key = cmd_block::spaces(n) + "cmd: |"@;
    let all = before + seq![key] + after;
    let at = before.len() as int;
    lemma_block_key(n, none);
    assert(key + none =~= key);
    assert(all[at] == key);
    assert forall|i: int| 0 <= i < at implies !opens(#[trigger] all[i]) by {
        assert(all[i] == before[i]);
    }
    text::lemma_first_index_is(all, 0, opens, at);
    let ends = |line: Seq<char>| cmd_block::ends_block(line, n);
    assert forall|i: int| at < i < all.len() implies cmd_block::is_blank(#[trigger] all[i]) by {
        let line = after[i - at - 1];
        assert(all[i] == line);
        assert(is_gap(line));
        text_laws::trailing_gap_is_trimmed(none, line);
        assert(none + line =~= line);
    }
    assert forall|i: int| at + 1 <= i < all.len() implies !ends(#[trigger] all[i]) by {
        assert(cmd_block::is_blank(all[i]));
    }
    text::lemma_first_index_is(all, at + 1, ends, all.len() as int);
    cmd_block::lemma_blank_tail(all, at + 1, all.len() as int, at + 1);
}

} // verus!
