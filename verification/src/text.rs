//! Character-level text handling: white space, trimming, lines and words.
//!
//! Text is modelled as `Seq<char>`; executable code works on `&[char]`, so that
//! taking a part of a text costs nothing and needs no byte offsets.

use vstd::prelude::*;
use vstd::slice::slice_subrange;

verus! {

/// `String::push` of the standard library: appends one character.
pub assume_specification[ String::push ](s: &mut String, c: char)
    ensures
        final(s)@ == old(s)@.push(c),
;

/// The contents of every element, in order.
pub open spec fn views<T: View>(items: Seq<T>) -> Seq<T::V> {
    items.map_values(|item: T| item@)
}

pub broadcast proof fn lemma_views_push<T: View>(items: Seq<T>, item: T)
    ensures
        #[trigger] views(items.push(item)) == views(items).push(item@),
{
    assert(views(items.push(item)) =~= views(items).push(item@));
}

/// The characters with the Unicode property `White_Space`.
pub open spec fn is_white(c: char) -> bool {
    ||| '\t' <= c <= '\r'
    ||| c == ' '
    ||| c == '\u{85}'
    ||| c == '\u{a0}'
    ||| c == '\u{1680}'
    ||| '\u{2000}' <= c <= '\u{200a}'
    ||| c == '\u{2028}'
    ||| c == '\u{2029}'
    ||| c == '\u{202f}'
    ||| c == '\u{205f}'
    ||| c == '\u{3000}'
}

/// Whether `c` is white space.
pub fn is_whitespace(c: char) -> (white: bool)
    ensures
        white == is_white(c),
{
    ('\t' <= c && c <= '\r') || c == ' ' || c == '\u{85}' || c == '\u{a0}' || c == '\u{1680}' || (
    '\u{2000}' <= c && c <= '\u{200a}') || c == '\u{2028}' || c == '\u{2029}' || c == '\u{202f}'
        || c == '\u{205f}' || c == '\u{3000}'
}

/// The characters of `s`.
pub fn chars_of(s: &str) -> (chars: Vec<char>)
    ensures
        chars@ == s@,
{
    let mut chars: Vec<char> = Vec::new();
    for c in it: s.chars()
        invariant
            chars@ == it.seq().take(it.index()),
            it.seq() == s@,
    {
        chars.push(c);
        assert(chars@ =~= it.seq().take(it.index() + 1));
    }
    assert(chars@ =~= s@);
    chars
}

/// The string made of `chars`.
pub fn string_of(chars: &[char]) -> (s: String)
    ensures
        s@ == chars@,
{
    let mut s = String::new();
    for i in 0..chars.len()
        invariant
            s@ == chars@.take(i as int),
    {
        s.push(chars[i]);
        assert(s@ =~= chars@.take(i + 1));
    }
    assert(s@ =~= chars@);
    s
}

/// Whether the two texts are the same.
pub fn same_text(a: &[char], b: &[char]) -> (same: bool)
    ensures
        same == (a@ == b@),
{
    if a.len() != b.len() {
        return false;
    }
    for i in 0..a.len()
        invariant
            a@.len() == b@.len(),
            forall|j: int| 0 <= j < i ==> a@[j] == b@[j],
    {
        if a[i] != b[i] {
            return false;
        }
    }
    assert(a@ =~= b@);
    true
}

/// Whether `s` starts with `prefix`.
pub open spec fn starts_with(s: Seq<char>, prefix: Seq<char>) -> bool {
    prefix.len() <= s.len() && s.take(prefix.len() as int) == prefix
}

/// Whether `s` ends with `suffix`.
pub open spec fn ends_with(s: Seq<char>, suffix: Seq<char>) -> bool {
    suffix.len() <= s.len() && s.skip(s.len() - suffix.len()) == suffix
}

/// Whether `s` reads `word` letter by letter.
pub fn is_text(s: &[char], word: &str) -> (same: bool)
    ensures
        same == (s@ == word@),
{
    let word_chars = chars_of(word);
    same_text(s, word_chars.as_slice())
}

/// Whether `s` starts with `prefix`.
pub fn has_prefix(s: &[char], prefix: &str) -> (found: bool)
    ensures
        found == starts_with(s@, prefix@),
{
    let chars = chars_of(prefix);
    if chars.len() > s.len() {
        return false;
    }
    same_text(slice_subrange(s, 0, chars.len()), chars.as_slice())
}

/// Whether `s` ends with `suffix`.
pub fn has_suffix(s: &[char], suffix: &str) -> (found: bool)
    ensures
        found == ends_with(s@, suffix@),
{
    let chars = chars_of(suffix);
    if chars.len() > s.len() {
        return false;
    }
    same_text(slice_subrange(s, s.len() - chars.len(), s.len()), chars.as_slice())
}

/// Whether `s` starts with the character `c`.
pub open spec fn starts_with_char(s: Seq<char>, c: char) -> bool {
    s.len() > 0 && s[0] == c
}

/// `s` without its leading white space.
pub open spec fn trim_start(s: Seq<char>) -> Seq<char>
    decreases s.len(),
{
    if s.len() > 0 && is_white(s[0]) {
        trim_start(s.drop_first())
    } else {
        s
    }
}

/// `s` without its trailing white space.
pub open spec fn trim_end(s: Seq<char>) -> Seq<char>
    decreases s.len(),
{
    if s.len() > 0 && is_white(s.last()) {
        trim_end(s.drop_last())
    } else {
        s
    }
}

/// `s` without its leading and trailing white space.
pub open spec fn trim(s: Seq<char>) -> Seq<char> {
    trim_end(trim_start(s))
}

/// The text after its leading white space.
pub fn after_leading_white(s: &[char]) -> (rest: &[char])
    ensures
        rest@ == trim_start(s@),
{
    let mut i: usize = 0;
    assert(s@.skip(0) =~= s@);
    while i < s.len() && is_whitespace(s[i])
        invariant
            i <= s@.len(),
            trim_start(s@) == trim_start(s@.skip(i as int)),
        decreases s@.len() - i,
    {
        assert(s@.skip(i as int).drop_first() =~= s@.skip(i + 1));
        i = i + 1;
    }
    assert(s@.skip(i as int) =~= s@.subrange(i as int, s@.len() as int));
    slice_subrange(s, i, s.len())
}

/// The text before its trailing white space.
pub fn before_trailing_white(s: &[char]) -> (rest: &[char])
    ensures
        rest@ == trim_end(s@),
{
    let mut i: usize = s.len();
    assert(s@.take(i as int) =~= s@);
    while i > 0 && is_whitespace(s[i - 1])
        invariant
            i <= s@.len(),
            trim_end(s@) == trim_end(s@.take(i as int)),
        decreases i,
    {
        assert(s@.take(i as int).drop_last() =~= s@.take(i - 1));
        i = i - 1;
    }
    assert(s@.take(i as int) =~= s@.subrange(0, i as int));
    slice_subrange(s, 0, i)
}

/// The text between its leading and trailing white space.
pub fn trimmed(s: &[char]) -> (rest: &[char])
    ensures
        rest@ == trim(s@),
{
    before_trailing_white(after_leading_white(s))
}

/// The number of bytes of `c` in UTF-8.
pub open spec fn char_width(c: char) -> nat {
    if c as u32 <= 0x7f {
        1
    } else if c as u32 <= 0x7ff {
        2
    } else if c as u32 <= 0xffff {
        3
    } else {
        4
    }
}

/// The number of bytes of `s` in UTF-8.
pub open spec fn byte_len(s: Seq<char>) -> nat
    decreases s.len(),
{
    if s.len() == 0 {
        0
    } else {
        byte_len(s.drop_last()) + char_width(s.last())
    }
}

/// `byte_len` counts the bytes of the UTF-8 encoding.
pub proof fn lemma_byte_len_is_utf8_len(s: Seq<char>)
    ensures
        byte_len(s) == vstd::utf8::encode_utf8(s).len(),
    decreases s.len(),
{
    if s.len() > 0 {
        let first = seq![s[0]];
        lemma_byte_len_is_utf8_len(s.drop_first());
        assert(s =~= first + s.drop_first());
        lemma_byte_len_concat(first, s.drop_first());
        assert(first.drop_last() =~= Seq::<char>::empty());
        reveal_with_fuel(byte_len, 2);
        assert(byte_len(first) == char_width(s[0]));
        vstd::utf8::char_is_scalar(s[0]);
        assert(vstd::utf8::encode_scalar(s[0] as u32).len() == char_width(s[0]));
    }
}

/// Byte counts add up over concatenation.
pub proof fn lemma_byte_len_concat(a: Seq<char>, b: Seq<char>)
    ensures
        byte_len(a + b) == byte_len(a) + byte_len(b),
    decreases b.len(),
{
    if b.len() == 0 {
        assert(a + b =~= a);
    } else {
        lemma_byte_len_concat(a, b.drop_last());
        assert((a + b).drop_last() =~= a + b.drop_last());
    }
}

/// The byte count of a part is at most that of the whole.
pub proof fn lemma_byte_len_part(s: Seq<char>, i: int, j: int)
    requires
        0 <= i <= j <= s.len(),
    ensures
        byte_len(s.take(i)) + byte_len(s.subrange(i, j)) + byte_len(s.skip(j)) == byte_len(s),
{
    lemma_byte_len_concat(s.take(i), s.subrange(i, j));
    assert(s.take(i) + s.subrange(i, j) =~= s.take(j));
    lemma_byte_len_concat(s.take(j), s.skip(j));
    assert(s.take(j) + s.skip(j) =~= s);
}

/// Every character has at least one byte.
pub proof fn lemma_byte_len_at_least_len(s: Seq<char>)
    ensures
        s.len() <= byte_len(s) <= 4 * s.len(),
    decreases s.len(),
{
    if s.len() > 0 {
        lemma_byte_len_at_least_len(s.drop_last());
    }
}

/// The number of bytes of `c` in UTF-8.
fn width_of(c: char) -> (n: u128)
    ensures
        n == char_width(c),
{
    let code: u32 = c as u32;
    if code <= 0x7f {
        1
    } else if code <= 0x7ff {
        2
    } else if code <= 0xffff {
        3
    } else {
        4
    }
}

/// The number of bytes of `s`.
pub fn count_bytes(s: &[char]) -> (n: u128)
    ensures
        n == byte_len(s@),
{
    let mut n: u128 = 0;
    for i in 0..s.len()
        invariant
            n == byte_len(s@.take(i as int)),
    {
        proof {
            lemma_byte_len_at_least_len(s@.take(i as int));
            assert(s@.take(i + 1).drop_last() =~= s@.take(i as int));
        }
        n = n + width_of(s[i]);
    }
    assert(s@.take(s@.len() as int) =~= s@);
    n
}

/// The number of characters before the first `c`, or of all if there is none.
pub open spec fn before(s: Seq<char>, c: char) -> nat
    decreases s.len(),
{
    if s.len() == 0 || s[0] == c {
        0
    } else {
        1 + before(s.drop_first(), c)
    }
}

pub proof fn lemma_before(s: Seq<char>, c: char)
    ensures
        before(s, c) <= s.len(),
        before(s, c) < s.len() ==> s[before(s, c) as int] == c,
        forall|i: int| 0 <= i < before(s, c) ==> s[i] != c,
    decreases s.len(),
{
    if s.len() > 0 && s[0] != c {
        let rest = s.drop_first();
        lemma_before(rest, c);
        assert forall|i: int| 0 <= i < before(s, c) implies s[i] != c by {
            if i > 0 {
                assert(s[i] == rest[i - 1]);
            }
        }
    }
}

/// `before` is the only position with nothing but other characters in front of it.
pub proof fn lemma_before_is(s: Seq<char>, c: char, n: int)
    requires
        0 <= n <= s.len(),
        n < s.len() ==> s[n] == c,
        forall|i: int| 0 <= i < n ==> s[i] != c,
    ensures
        before(s, c) == n,
{
    lemma_before(s, c);
    if before(s, c) < n {
        assert(s[before(s, c) as int] == c);
    }
}

/// The number of characters before the first `c`, or of all if there is none.
pub fn count_before(s: &[char], c: char) -> (n: usize)
    ensures
        n == before(s@, c),
        n <= s@.len(),
{
    let mut n: usize = 0;
    while n < s.len() && s[n] != c
        invariant
            n <= s@.len(),
            forall|i: int| 0 <= i < n ==> s@[i] != c,
        decreases s@.len() - n,
    {
        n = n + 1;
    }
    proof {
        lemma_before_is(s@, c, n as int);
    }
    n
}

/// Whether `c` occurs in `s`.
pub fn has_char(s: &[char], c: char) -> (found: bool)
    ensures
        found == s@.contains(c),
{
    let n: usize = count_before(s, c);
    proof {
        lemma_before(s@, c);
    }
    n < s.len()
}

/// The part of `s` behind the last `c`, or all of it.
pub open spec fn behind_last(s: Seq<char>, c: char) -> Seq<char>
    decreases s.len(),
{
    if s.len() == 0 || s.last() == c {
        Seq::empty()
    } else {
        behind_last(s.drop_last(), c).push(s.last())
    }
}

pub proof fn lemma_behind_last(s: Seq<char>, c: char, n: int)
    requires
        0 <= n <= s.len(),
        n > 0 ==> s[n - 1] == c,
        forall|i: int| n <= i < s.len() ==> #[trigger] s[i] != c,
    ensures
        behind_last(s, c) == s.skip(n),
    decreases s.len(),
{
    if n == s.len() {
        assert(s.skip(n) =~= Seq::<char>::empty());
    } else {
        assert(s[s.len() - 1] != c);
        lemma_behind_last(s.drop_last(), c, n);
        assert(s.drop_last().skip(n).push(s.last()) =~= s.skip(n));
    }
}

/// The part of `s` behind the last `c`, or all of it.
pub fn after_last(s: &[char], c: char) -> (rest: &[char])
    ensures
        rest@ == behind_last(s@, c),
{
    let mut n: usize = s.len();
    while n > 0 && s[n - 1] != c
        invariant
            n <= s@.len(),
            forall|i: int| n <= i < s@.len() ==> #[trigger] s@[i] != c,
        decreases n,
    {
        n = n - 1;
    }
    let rest = slice_subrange(s, n, s.len());
    proof {
        lemma_behind_last(s@, c, n as int);
        assert(rest@ =~= s@.skip(n as int));
    }
    rest
}

/// The parts of `s` before and after its first `c`.
pub open spec fn split_once(s: Seq<char>, c: char) -> Option<(Seq<char>, Seq<char>)> {
    let n = before(s, c) as int;
    if n < s.len() {
        Some((s.take(n), s.skip(n + 1)))
    } else {
        None
    }
}

/// The parts of `s` before and after its first `c`.
pub fn split_at_char(s: &[char], c: char) -> (parts: Option<(&[char], &[char])>)
    ensures
        match parts {
            Some((a, b)) => split_once(s@, c) == Some((a@, b@)),
            None => split_once(s@, c) is None,
        },
{
    let n: usize = count_before(s, c);
    if n < s.len() {
        Some((slice_subrange(s, 0, n), slice_subrange(s, n + 1, s.len())))
    } else {
        None
    }
}

/// A line without the carriage return that belongs to its line ending.
pub open spec fn drop_carriage_return(line: Seq<char>) -> Seq<char> {
    if line.len() > 0 && line.last() == '\r' {
        line.drop_last()
    } else {
        line
    }
}

/// The lines of `s`, without their endings `\n` or `\r\n`. The ending of the last
/// line is optional.
pub open spec fn lines(s: Seq<char>) -> Seq<Seq<char>>
    decreases s.len(),
{
    let n = before(s, '\n') as int;
    if s.len() == 0 {
        Seq::empty()
    } else if n >= s.len() {
        seq![s]
    } else {
        seq![drop_carriage_return(s.take(n))] + lines(s.skip(n + 1))
    }
}

/// A copy of `s`.
pub fn copy_chars(s: &[char]) -> (copy: Vec<char>)
    ensures
        copy@ == s@,
{
    let mut copy: Vec<char> = Vec::new();
    for i in 0..s.len()
        invariant
            copy@ == s@.take(i as int),
    {
        copy.push(s[i]);
        assert(copy@ =~= s@.take(i + 1));
    }
    assert(copy@ =~= s@);
    copy
}

/// The lines of `s`, without their endings.
pub fn split_lines(s: &[char]) -> (parts: Vec<Vec<char>>)
    ensures
        views(parts@) == lines(s@),
{
    broadcast use lemma_views_push;

    let mut parts: Vec<Vec<char>> = Vec::new();
    let mut start: usize = 0;
    assert(s@.skip(0) =~= s@);
    assert(views(parts@) + lines(s@) =~= lines(s@));
    while start < s.len()
        invariant
            start <= s@.len(),
            views(parts@) + lines(s@.skip(start as int)) == lines(s@),
        decreases s@.len() - start,
    {
        let rest = slice_subrange(s, start, s.len());
        assert(rest@ =~= s@.skip(start as int));
        let n: usize = count_before(rest, '\n');
        let ghost earlier = views(parts@);
        if n < rest.len() {
            let line = slice_subrange(rest, 0, n);
            assert(line@ =~= rest@.take(n as int));
            if n > 0 && line[n - 1] == '\r' {
                parts.push(copy_chars(slice_subrange(line, 0, n - 1)));
                assert(line@.drop_last() =~= line@.subrange(0, n - 1));
            } else {
                parts.push(copy_chars(line));
            }
            assert(rest@.skip(n + 1) =~= s@.skip(start + n + 1));
            assert(earlier.push(drop_carriage_return(line@)) + lines(rest@.skip(n + 1)) =~= earlier
                + lines(rest@));
            start = start + n + 1;
        } else {
            parts.push(copy_chars(rest));
            assert(s@.skip(s@.len() as int) =~= Seq::<char>::empty());
            assert(earlier.push(rest@) + Seq::<Seq<char>>::empty() =~= earlier + lines(rest@));
            start = s.len();
        }
    }
    assert(s@.skip(start as int) =~= Seq::<char>::empty());
    assert(views(parts@) + Seq::<Seq<char>>::empty() =~= views(parts@));
    parts
}

/// The lines of a text as [`lines`] has them, but each with the carriage return that may
/// stand before its line feed.
pub open spec fn raw_lines(s: Seq<char>) -> Seq<Seq<char>>
    decreases s.len(),
{
    let n = before(s, '\n') as int;
    if s.len() == 0 {
        Seq::empty()
    } else if n >= s.len() {
        seq![s]
    } else {
        seq![s.take(n)] + raw_lines(s.skip(n + 1))
    }
}

/// With or without their carriage returns, the lines are as many.
pub proof fn lemma_raw_lines_len(s: Seq<char>)
    ensures
        raw_lines(s).len() == lines(s).len(),
    decreases s.len(),
{
    let n = before(s, '\n') as int;
    if s.len() > 0 && n < s.len() {
        lemma_raw_lines_len(s.skip(n + 1));
    }
}

/// The lines of a text, each with the carriage return that may stand before its line feed.
pub fn split_raw_lines(s: &[char]) -> (parts: Vec<Vec<char>>)
    ensures
        views(parts@) == raw_lines(s@),
        parts@.len() == lines(s@).len(),
{
    broadcast use lemma_views_push;

    let mut parts: Vec<Vec<char>> = Vec::new();
    let mut start: usize = 0;
    assert(s@.skip(0) =~= s@);
    assert(views(parts@) + raw_lines(s@) =~= raw_lines(s@));
    while start < s.len()
        invariant
            start <= s@.len(),
            views(parts@) + raw_lines(s@.skip(start as int)) == raw_lines(s@),
        decreases s@.len() - start,
    {
        let rest = slice_subrange(s, start, s.len());
        assert(rest@ =~= s@.skip(start as int));
        let n: usize = count_before(rest, '\n');
        let ghost earlier = views(parts@);
        if n < rest.len() {
            let line = slice_subrange(rest, 0, n);
            assert(line@ =~= rest@.take(n as int));
            parts.push(copy_chars(line));
            assert(rest@.skip(n + 1) =~= s@.skip(start + n + 1));
            assert(earlier.push(line@) + raw_lines(rest@.skip(n + 1)) =~= earlier + raw_lines(
                rest@,
            ));
            start = start + n + 1;
        } else {
            parts.push(copy_chars(rest));
            assert(s@.skip(s@.len() as int) =~= Seq::<char>::empty());
            assert(earlier.push(rest@) + Seq::<Seq<char>>::empty() =~= earlier + raw_lines(rest@));
            start = s.len();
        }
    }
    assert(s@.skip(start as int) =~= Seq::<char>::empty());
    assert(views(parts@) + Seq::<Seq<char>>::empty() =~= views(parts@));
    proof {
        lemma_raw_lines_len(s@);
        assert(views(parts@).len() == parts@.len());
    }
    parts
}

/// The parts one after the other, with `sep` between them.
pub open spec fn join(parts: Seq<Seq<char>>, sep: Seq<char>) -> Seq<char>
    decreases parts.len(),
{
    if parts.len() == 0 {
        Seq::empty()
    } else if parts.len() == 1 {
        parts[0]
    } else {
        parts[0] + sep + join(parts.drop_first(), sep)
    }
}

/// Appending a part appends the separator and the part.
pub proof fn lemma_join_push(parts: Seq<Seq<char>>, sep: Seq<char>, part: Seq<char>)
    ensures
        join(parts.push(part), sep) == if parts.len() == 0 {
            part
        } else {
            join(parts, sep) + sep + part
        },
    decreases parts.len(),
{
    if parts.len() > 0 {
        lemma_join_push(parts.drop_first(), sep, part);
        assert(parts.push(part).drop_first() =~= parts.drop_first().push(part));
        if parts.len() == 1 {
            assert(parts[0] + sep + part =~= join(parts, sep) + sep + part);
        } else {
            assert(parts[0] + sep + (join(parts.drop_first(), sep) + sep + part) =~= join(parts, sep)
                + sep + part);
        }
    }
}

/// The parts one after the other, with `sep` between them.
pub fn join_chars(parts: &Vec<Vec<char>>, sep: char) -> (joined: Vec<char>)
    ensures
        joined@ == join(views(parts@), seq![sep]),
{
    let mut joined: Vec<char> = Vec::new();
    let ghost all = views(parts@);
    assert(all.take(0) =~= Seq::<Seq<char>>::empty());
    for i in 0..parts.len()
        invariant
            all == views(parts@),
            joined@ == join(all.take(i as int), seq![sep]),
    {
        proof {
            assert(all.take(i + 1) =~= all.take(i as int).push(all[i as int]));
            lemma_join_push(all.take(i as int), seq![sep], all[i as int]);
        }
        if i > 0 {
            joined.push(sep);
        }
        append_chars(&mut joined, parts[i].as_slice());
        assert(joined@ =~= join(all.take(i + 1), seq![sep]));
    }
    assert(all.take(parts@.len() as int) =~= all);
    joined
}

/// Appends `part` to `s`.
pub fn append_chars(s: &mut Vec<char>, part: &[char])
    ensures
        final(s)@ == old(s)@ + part@,
{
    let ghost start = s@;
    for i in 0..part.len()
        invariant
            s@ == start + part@.take(i as int),
    {
        s.push(part[i]);
        assert(s@ =~= start + part@.take(i + 1));
    }
    assert(s@ =~= start + part@);
}

/// The number of characters before the first white space, or of all if there is none.
pub open spec fn word_len(s: Seq<char>) -> nat
    decreases s.len(),
{
    if s.len() == 0 || is_white(s[0]) {
        0
    } else {
        1 + word_len(s.drop_first())
    }
}

pub proof fn lemma_word_len(s: Seq<char>)
    ensures
        word_len(s) <= s.len(),
        word_len(s) < s.len() ==> is_white(s[word_len(s) as int]),
        forall|i: int| 0 <= i < word_len(s) ==> !is_white(s[i]),
    decreases s.len(),
{
    if s.len() > 0 && !is_white(s[0]) {
        let rest = s.drop_first();
        lemma_word_len(rest);
        assert forall|i: int| 0 <= i < word_len(s) implies !is_white(s[i]) by {
            if i > 0 {
                assert(s[i] == rest[i - 1]);
            }
        }
    }
}

pub proof fn lemma_word_len_is(s: Seq<char>, n: int)
    requires
        0 <= n <= s.len(),
        n < s.len() ==> is_white(s[n]),
        forall|i: int| 0 <= i < n ==> !is_white(s[i]),
    ensures
        word_len(s) == n,
{
    lemma_word_len(s);
    if word_len(s) < n {
        assert(is_white(s[word_len(s) as int]));
    }
}

pub proof fn lemma_trim_start(s: Seq<char>)
    ensures
        trim_start(s).len() <= s.len(),
        trim_start(s) == s.skip(s.len() - trim_start(s).len()),
        trim_start(s).len() > 0 ==> !is_white(trim_start(s)[0]),
        forall|i: int| 0 <= i < s.len() - trim_start(s).len() ==> is_white(s[i]),
    decreases s.len(),
{
    if s.len() > 0 && is_white(s[0]) {
        let rest = s.drop_first();
        lemma_trim_start(rest);
        assert(rest.skip(rest.len() - trim_start(rest).len()) =~= s.skip(
            s.len() - trim_start(s).len(),
        ));
        assert forall|i: int| 0 <= i < s.len() - trim_start(s).len() implies is_white(s[i]) by {
            if i > 0 {
                assert(s[i] == rest[i - 1]);
            }
        }
    } else {
        assert(s.skip(0) =~= s);
    }
}

pub proof fn lemma_trim_end(s: Seq<char>)
    ensures
        trim_end(s).len() <= s.len(),
        trim_end(s) == s.take(trim_end(s).len() as int),
        trim_end(s).len() > 0 ==> !is_white(trim_end(s).last()),
        forall|i: int| trim_end(s).len() <= i < s.len() ==> is_white(s[i]),
    decreases s.len(),
{
    if s.len() > 0 && is_white(s.last()) {
        let rest = s.drop_last();
        lemma_trim_end(rest);
        assert(rest.take(trim_end(rest).len() as int) =~= s.take(trim_end(s).len() as int));
        assert forall|i: int| trim_end(s).len() <= i < s.len() implies is_white(s[i]) by {
            if i < s.len() - 1 {
                assert(s[i] == rest[i]);
            }
        }
    } else {
        assert(s.take(s.len() as int) =~= s);
    }
}

/// The words of `s`: its longest parts without white space.
pub open spec fn words(s: Seq<char>) -> Seq<Seq<char>>
    decreases s.len(),
{
    let rest = trim_start(s);
    if rest.len() == 0 {
        Seq::empty()
    } else {
        proof {
            lemma_trim_start(s);
            lemma_word_len(rest);
        }
        let n = word_len(rest) as int;
        seq![rest.take(n)] + words(rest.skip(n))
    }
}

/// The words of `s`.
pub fn split_words(s: &[char]) -> (parts: Vec<Vec<char>>)
    ensures
        views(parts@) == words(s@),
{
    broadcast use lemma_views_push;

    let mut parts: Vec<Vec<char>> = Vec::new();
    let mut rest = after_leading_white(s);
    proof {
        lemma_trim_start(s@);
        lemma_trim_start_again(s@);
        assert(views(parts@) + words(rest@) =~= words(s@));
    }
    while rest.len() > 0
        invariant
            rest@ == trim_start(rest@),
            views(parts@) + words(rest@) == words(s@),
        decreases rest@.len(),
    {
        let ghost whole = rest@;
        let ghost earlier = views(parts@);
        proof {
            lemma_trim_start(whole);
        }
        let mut n: usize = 0;
        while n < rest.len() && !is_whitespace(rest[n])
            invariant
                n <= rest@.len(),
                forall|i: int| 0 <= i < n ==> !is_white(rest@[i]),
            decreases rest@.len() - n,
        {
            n = n + 1;
        }
        proof {
            lemma_word_len_is(whole, n as int);
        }
        parts.push(copy_chars(slice_subrange(rest, 0, n)));
        assert(whole.subrange(0, n as int) =~= whole.take(n as int));
        let tail = slice_subrange(rest, n, rest.len());
        assert(tail@ =~= whole.skip(n as int));
        rest = after_leading_white(tail);
        proof {
            lemma_trim_start(tail@);
            lemma_trim_start_again(tail@);
            assert(earlier.push(whole.take(n as int)) + words(tail@) =~= earlier + words(whole));
        }
    }
    assert(views(parts@) + Seq::<Seq<char>>::empty() =~= views(parts@));
    parts
}

pub proof fn lemma_trim_start_again(s: Seq<char>)
    ensures
        trim_start(trim_start(s)) == trim_start(s),
        words(trim_start(s)) == words(s),
{
    lemma_trim_start(s);
}

/// The first position at or after `from` whose line meets `pred`, or the number of
/// lines if there is none.
pub open spec fn first_index(
    lines: Seq<Seq<char>>,
    from: int,
    pred: spec_fn(Seq<char>) -> bool,
) -> int
    decreases lines.len() - from,
{
    if from >= lines.len() {
        lines.len() as int
    } else if pred(lines[from]) {
        from
    } else {
        first_index(lines, from + 1, pred)
    }
}

pub proof fn lemma_first_index(
    lines: Seq<Seq<char>>,
    from: int,
    pred: spec_fn(Seq<char>) -> bool,
)
    requires
        0 <= from <= lines.len(),
    ensures
        from <= first_index(lines, from, pred) <= lines.len(),
        first_index(lines, from, pred) < lines.len() ==> pred(
            lines[first_index(lines, from, pred)],
        ),
        forall|i: int| from <= i < first_index(lines, from, pred) ==> !pred(#[trigger] lines[i]),
    decreases lines.len() - from,
{
    if from < lines.len() && !pred(lines[from]) {
        lemma_first_index(lines, from + 1, pred);
    }
}

pub proof fn lemma_first_index_is(
    lines: Seq<Seq<char>>,
    from: int,
    pred: spec_fn(Seq<char>) -> bool,
    n: int,
)
    requires
        0 <= from <= n <= lines.len(),
        n < lines.len() ==> pred(lines[n]),
        forall|i: int| from <= i < n ==> !pred(#[trigger] lines[i]),
    ensures
        first_index(lines, from, pred) == n,
{
    lemma_first_index(lines, from, pred);
    let m = first_index(lines, from, pred);
    if m < n {
        assert(!pred(lines[m]));
    } else if n < m {
        assert(!pred(lines[n]));
    }
}

/// The character lines of string lines.
pub fn lines_of(lines: &[&str]) -> (chars: Vec<Vec<char>>)
    ensures
        views(chars@) == views(lines@),
{
    let mut chars: Vec<Vec<char>> = Vec::new();
    for i in 0..lines.len()
        invariant
            chars@.len() == i,
            forall|j: int| 0 <= j < i ==> #[trigger] chars@[j]@ == lines@[j]@,
    {
        chars.push(chars_of(lines[i]));
    }
    assert(views(chars@) =~= views(lines@));
    chars
}

/// The parts of `s` between the occurrences of `c`.
pub open spec fn split(s: Seq<char>, c: char) -> Seq<Seq<char>>
    decreases s.len(),
{
    let n = before(s, c) as int;
    if n >= s.len() {
        seq![s]
    } else {
        seq![s.take(n)] + split(s.skip(n + 1), c)
    }
}

/// The parts of `s` between the occurrences of `c`.
pub fn split_on(s: &[char], c: char) -> (parts: Vec<Vec<char>>)
    ensures
        views(parts@) == split(s@, c),
{
    let mut parts: Vec<Vec<char>> = Vec::new();
    let mut rest = s;
    assert(views(parts@) + split(s@, c) =~= split(s@, c));
    loop
        invariant_except_break
            views(parts@) + split(rest@, c) == split(s@, c),
        ensures
            views(parts@) == split(s@, c),
        decreases rest@.len(),
    {
        let n: usize = count_before(rest, c);
        let ghost earlier = parts@;
        if n >= rest.len() {
            parts.push(copy_chars(rest));
            proof {
                lemma_views_push(earlier, parts@.last());
                assert(views(parts@) =~= views(earlier) + split(rest@, c));
            }
            break;
        }
        parts.push(copy_chars(slice_subrange(rest, 0, n)));
        let tail = slice_subrange(rest, n + 1, rest.len());
        proof {
            lemma_views_push(earlier, parts@.last());
            assert(rest@.subrange(0, n as int) =~= rest@.take(n as int));
            assert(tail@ =~= rest@.skip(n + 1));
            assert(views(parts@) + split(tail@, c) =~= views(earlier) + split(rest@, c));
        }
        rest = tail;
    }
    parts
}

} // verus!
