//! What holds of command-line tokens: tokens of a line, put together with spaces, are
//! read back as the same tokens.

use crate::cmd_block;
use crate::text;
use vstd::prelude::*;

verus! {

/// The quote that is open behind `s`, where `quote` is open at its start.
pub open spec fn quote_behind(s: Seq<char>, quote: Option<char>) -> Option<char>
    decreases s.len(),
{
    if s.len() == 0 {
        quote
    } else {
        quote_behind(s.drop_first(), cmd_block::quote_after(quote, s[0]))
    }
}

/// Whether `t` is one token: it is not empty, and no white space outside quotes
/// ends it early.
pub open spec fn is_token(t: Seq<char>) -> bool {
    t.len() > 0 && cmd_block::token_len(t, None) == t.len()
}

/// Whether every quote in `t` is closed.
pub open spec fn is_closed(t: Seq<char>) -> bool {
    quote_behind(t, None) is None
}

/// Whether these can be the tokens of a trimmed line: each is a token that does not end
/// in white space, and only the last may leave a quote open.
pub open spec fn are_line_tokens(list: Seq<Seq<char>>) -> bool {
    &&& forall|i: int|
        0 <= i < list.len() ==> is_token(#[trigger] list[i]) && !text::is_white(list[i].last())
    &&& forall|i: int| 0 <= i < list.len() - 1 ==> is_closed(#[trigger] list[i])
}

/// Whether `c` can be an open quote.
spec fn is_quote(quote: Option<char>) -> bool {
    quote is None || quote == Some('"') || quote == Some('\'')
}

proof fn lemma_token_len_take(s: Seq<char>, quote: Option<char>)
    ensures
        ({
            let n = cmd_block::token_len(s, quote) as int;
            &&& n <= s.len()
            &&& cmd_block::token_len(s.take(n), quote) == n
            &&& n < s.len() ==> quote_behind(s.take(n), quote) is None && text::is_white(s[n])
        }),
    decreases s.len(),
{
    let n = cmd_block::token_len(s, quote) as int;
    if s.len() == 0 || (quote is None && text::is_white(s[0])) {
        assert(s.take(0) =~= Seq::<char>::empty());
    } else {
        let next = cmd_block::quote_after(quote, s[0]);
        lemma_token_len_take(s.drop_first(), next);
        assert(s.take(n).drop_first() =~= s.drop_first().take(n - 1));
        assert(s.take(n)[0] == s[0]);
    }
}

proof fn lemma_token_len_append(t: Seq<char>, rest: Seq<char>, quote: Option<char>)
    requires
        cmd_block::token_len(t, quote) == t.len(),
        rest.len() == 0 || (quote_behind(t, quote) is None && text::is_white(rest[0])),
    ensures
        cmd_block::token_len(t + rest, quote) == t.len(),
    decreases t.len(),
{
    if t.len() == 0 {
        assert(t + rest =~= rest);
    } else {
        let next = cmd_block::quote_after(quote, t[0]);
        lemma_token_len_append(t.drop_first(), rest, next);
        assert((t + rest).drop_first() =~= t.drop_first() + rest);
        assert((t + rest)[0] == t[0]);
    }
}

proof fn lemma_closed_ends_plainly(t: Seq<char>, quote: Option<char>)
    requires
        is_quote(quote),
        t.len() > 0,
        cmd_block::token_len(t, quote) == t.len(),
        quote_behind(t, quote) is None,
    ensures
        !text::is_white(t.last()),
    decreases t.len(),
{
    let next = cmd_block::quote_after(quote, t[0]);
    if t.len() == 1 {
        assert(t.drop_first() =~= Seq::<char>::empty());
        reveal_with_fuel(quote_behind, 2);
        assert(t.last() == t[0]);
    } else {
        lemma_closed_ends_plainly(t.drop_first(), next);
        assert(t.last() == t.drop_first().last());
    }
}

/// The tokens of a line that does not end in white space are tokens of which only the
/// last may leave a quote open.
pub proof fn tokens_are_line_tokens(s: Seq<char>)
    requires
        s.len() > 0 ==> !text::is_white(s.last()),
    ensures
        are_line_tokens(cmd_block::tokens(s)),
    decreases s.len(),
{
    let rest = text::trim_start(s);
    text::lemma_trim_start(s);
    if rest.len() > 0 {
        let n = cmd_block::token_len(rest, None) as int;
        let first = rest.take(n);
        let tail = rest.skip(n);
        lemma_token_len_take(rest, None);
        assert(n > 0);
        assert(s.last() == rest.last());
        tokens_are_line_tokens(tail);
        let list = cmd_block::tokens(s);
        let others = cmd_block::tokens(tail);
        assert(list =~= seq![first] + others);
        assert(is_token(first));
        if n < rest.len() {
            lemma_closed_ends_plainly(first, None);
        } else {
            assert(first =~= rest);
            assert(tail =~= Seq::<char>::empty());
            assert(others =~= Seq::<Seq<char>>::empty());
        }
        assert forall|i: int| 0 <= i < list.len() implies is_token(#[trigger] list[i])
            && !text::is_white(list[i].last()) by {
            if i > 0 {
                assert(list[i] == others[i - 1]);
            }
        }
        assert forall|i: int| 0 <= i < list.len() - 1 implies is_closed(#[trigger] list[i]) by {
            if i > 0 {
                assert(list[i] == others[i - 1]);
            }
        }
    }
}

/// Tokens of a line, put together with spaces, are read back as the same tokens.
pub proof fn joined_tokens_read_back(list: Seq<Seq<char>>)
    requires
        are_line_tokens(list),
    ensures
        cmd_block::tokens(text::join(list, seq![' '])) == list,
        text::trim(text::join(list, seq![' '])) == text::join(list, seq![' ']),
        list.len() > 0 ==> text::join(list, seq![' ']).len() > 0 && text::join(
            list,
            seq![' '],
        )[0] == list[0][0] && text::join(list, seq![' ']).last() == list.last().last(),
    decreases list.len(),
{
    let s = text::join(list, seq![' ']);
    if list.len() == 0 {
        assert(list =~= Seq::<Seq<char>>::empty());
    } else {
        let first = list[0];
        assert(is_token(first));
        if list.len() == 1 {
            assert(s == first);
            assert(first.take(first.len() as int) =~= first);
            assert(first.skip(first.len() as int) =~= Seq::<char>::empty());
            assert(cmd_block::tokens(Seq::<char>::empty()) =~= Seq::<Seq<char>>::empty());
            assert(cmd_block::tokens(s) =~= list);
            assert(!text::is_white(list[0].last()));
        } else {
            let others = list.drop_first();
            assert forall|i: int| 0 <= i < others.len() implies is_token(#[trigger] others[i])
                && !text::is_white(others[i].last()) by {
                assert(others[i] == list[i + 1]);
            }
            assert forall|i: int| 0 <= i < others.len() - 1 implies is_closed(
                #[trigger] others[i],
            ) by {
                assert(others[i] == list[i + 1]);
            }
            joined_tokens_read_back(others);
            let rest = text::join(others, seq![' ']);
            let tail = seq![' '] + rest;
            assert(s =~= first + tail);
            assert(is_closed(list[0]));
            lemma_token_len_append(first, tail, None);
            assert(s[0] == first[0]);
            assert(text::trim_start(s) == s);
            assert(s.take(first.len() as int) =~= first);
            assert(s.skip(first.len() as int) =~= tail);
            assert(tail.drop_first() =~= rest);
            assert(!text::is_white(rest[0])) by {
                assert(is_token(others[0]));
            }
            assert(text::trim_start(tail) == rest);
            cmd_block::lemma_tokens_trim_start(tail);
            assert(cmd_block::tokens(tail) == others);
            assert(list =~= seq![first] + others);
            assert(s.last() == rest.last());
        }
        assert(!text::is_white(list[list.len() - 1].last()));
    }
}

/// The tokens of a line hold no characters but those of the line.
pub proof fn lemma_tokens_chars(s: Seq<char>, c: char)
    requires
        !s.contains(c),
    ensures
        forall|k: int|
            0 <= k < cmd_block::tokens(s).len() ==> !(#[trigger] cmd_block::tokens(s)[k]).contains(
                c,
            ),
    decreases s.len(),
{
    let rest = text::trim_start(s);
    text::lemma_trim_start(s);
    if rest.len() > 0 {
        let n = cmd_block::token_len(rest, None) as int;
        lemma_token_len_take(rest, None);
        let tail = rest.skip(n);
        assert(!tail.contains(c)) by {
            if tail.contains(c) {
                let i = choose|i: int| 0 <= i < tail.len() && tail[i] == c;
                assert(s[i + n + s.len() - rest.len()] == c);
            }
        }
        assert(!rest.take(n).contains(c)) by {
            if rest.take(n).contains(c) {
                let i = choose|i: int| 0 <= i < n && rest.take(n)[i] == c;
                assert(s[i + s.len() - rest.len()] == c);
            }
        }
        lemma_tokens_chars(tail, c);
        let list = cmd_block::tokens(s);
        assert forall|k: int| 0 <= k < list.len() implies !(#[trigger] list[k]).contains(c) by {
            if k > 0 {
                assert(list[k] == cmd_block::tokens(tail)[k - 1]);
            }
        }
    }
}

} // verus!
