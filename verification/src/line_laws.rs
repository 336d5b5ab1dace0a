//! What holds of texts and their lines.

use crate::swap_yaml;
use crate::text;
use vstd::prelude::*;

verus! {

/// Whether a line ends with a carriage return.
pub open spec fn ends_with_return(line: Seq<char>) -> bool {
    line.len() > 0 && line.last() == '\r'
}

/// Whether lines can be told apart again after they were put together as a text: none
/// holds a line feed, there is one to be ended, and a last line that is not ended is not
/// empty.
pub open spec fn splits_back(raw: Seq<Seq<char>>, ended: bool) -> bool {
    &&& forall|i: int| 0 <= i < raw.len() ==> !(#[trigger] raw[i]).contains('\n')
    &&& ended ==> raw.len() > 0
    &&& !ended && raw.len() > 0 ==> raw.last().len() > 0
}

/// The lines without the carriage returns before their line feeds. The last line has a
/// line feed only where `ended`.
pub open spec fn bare_lines(raw: Seq<Seq<char>>, ended: bool) -> Seq<Seq<char>> {
    Seq::new(
        raw.len(),
        |i: int|
            if ended || i + 1 < raw.len() {
                text::drop_carriage_return(raw[i])
            } else {
                raw[i]
            },
    )
}

/// Lines that were put together as a text are read back from it, without the carriage
/// returns before their line feeds.
pub proof fn lines_read_back(raw: Seq<Seq<char>>, ended: bool)
    requires
        splits_back(raw, ended),
    ensures
        text::raw_lines(swap_yaml::text_of_lines(raw, ended)) == raw,
        text::lines(swap_yaml::text_of_lines(raw, ended)) == bare_lines(raw, ended),
        swap_yaml::is_ended(swap_yaml::text_of_lines(raw, ended)) == ended,
    decreases raw.len(),
{
    let s = swap_yaml::text_of_lines(raw, ended);
    if raw.len() == 0 {
        assert(s =~= Seq::<char>::empty());
        assert(text::lines(s) =~= bare_lines(raw, ended));
    } else {
        let first = raw[0];
        let rest = raw.drop_first();
        assert(!first.contains('\n'));
        assert forall|i: int| 0 <= i < first.len() implies first[i] != '\n' by {
            if first[i] == '\n' {
                assert(first.contains('\n'));
            }
        }
        if raw.len() == 1 && !ended {
            assert(s =~= first);
            text::lemma_before_is(s, '\n', s.len() as int);
            assert(raw =~= seq![first]);
            assert(text::lines(s) =~= bare_lines(raw, ended));
        } else {
            let line = text::drop_carriage_return(first);
            text::lemma_before_is(s, '\n', first.len() as int);
            assert(s.take(first.len() as int) =~= first);
            let tail = s.skip(first.len() as int + 1);
            if raw.len() == 1 {
                assert(tail =~= Seq::<char>::empty());
                assert(raw =~= seq![first]);
                assert(text::raw_lines(tail) =~= Seq::<Seq<char>>::empty());
                assert(text::lines(tail) =~= Seq::<Seq<char>>::empty());
                assert(text::raw_lines(s) =~= seq![first]);
                assert(text::lines(s) =~= seq![line]);
                assert(text::lines(s) =~= bare_lines(raw, ended));
            } else {
                assert forall|i: int| 0 <= i < rest.len() implies !(
                #[trigger] rest[i]).contains('\n') by {
                    assert(rest[i] == raw[i + 1]);
                }
                lines_read_back(rest, ended);
                assert(tail =~= swap_yaml::text_of_lines(rest, ended));
                assert(raw =~= seq![first] + rest);
                assert(bare_lines(raw, ended) =~= seq![line] + bare_lines(rest, ended));
                if tail.len() > 0 {
                    assert(s.last() == tail.last());
                }
            }
        }
    }
}

/// A text is put together again from its lines with their carriage returns, and these
/// lines can be told apart again.
pub proof fn text_reads_back(file: Seq<char>)
    ensures
        swap_yaml::text_of_lines(text::raw_lines(file), swap_yaml::is_ended(file)) == file,
        splits_back(text::raw_lines(file), swap_yaml::is_ended(file)),
        text::lines(file) == bare_lines(text::raw_lines(file), swap_yaml::is_ended(file)),
        file.len() > 0 ==> text::raw_lines(file).len() > 0,
    decreases file.len(),
{
    let raw = text::raw_lines(file);
    let ended = swap_yaml::is_ended(file);
    let n = text::before(file, '\n') as int;
    text::lemma_before(file, '\n');
    if file.len() == 0 {
        assert(swap_yaml::text_of_lines(raw, ended) =~= file);
        assert(text::lines(file) =~= bare_lines(raw, ended));
    } else if n >= file.len() {
        assert(swap_yaml::text_of_lines(raw, ended) =~= file);
        assert forall|i: int| 0 <= i < raw.len() implies !(#[trigger] raw[i]).contains('\n') by {
            if raw[i].contains('\n') {
                let j = choose|j: int| 0 <= j < raw[i].len() && raw[i][j] == '\n';
                assert(file[j] == '\n');
            }
        }
        assert(text::lines(file) =~= bare_lines(raw, ended));
    } else {
        let first = file.take(n);
        let tail = file.skip(n + 1);
        text_reads_back(tail);
        let rest = text::raw_lines(tail);
        assert(raw =~= seq![first] + rest);
        assert(raw.drop_first() =~= rest);
        assert(file =~= first + seq!['\n'] + tail);
        if tail.len() > 0 {
            assert(file.last() == tail.last());
            assert(swap_yaml::text_of_lines(raw, ended) =~= first + seq!['\n']
                + swap_yaml::text_of_lines(rest, ended));
        } else {
            assert(rest =~= Seq::<Seq<char>>::empty());
            assert(swap_yaml::text_of_lines(raw, ended) =~= file);
        }
        assert forall|i: int| 0 <= i < raw.len() implies !(#[trigger] raw[i]).contains('\n') by {
            if i == 0 {
                if first.contains('\n') {
                    let j = choose|j: int| 0 <= j < first.len() && first[j] == '\n';
                    assert(file[j] == '\n');
                }
            } else {
                assert(raw[i] == rest[i - 1]);
            }
        }
        assert(text::lines(file) =~= bare_lines(raw, ended));
    }
}

/// No line of a text holds a line feed, and a last line that is not ended is not empty.
pub proof fn lines_hold_no_feed(file: Seq<char>)
    ensures
        forall|i: int|
            0 <= i < text::lines(file).len() ==> !(#[trigger] text::lines(file)[i]).contains('\n'),
        swap_yaml::is_ended(file) ==> text::lines(file).len() > 0,
        !swap_yaml::is_ended(file) && text::lines(file).len() > 0 ==> text::lines(
            file,
        ).last().len() > 0,
{
    let lines = text::lines(file);
    let raw = text::raw_lines(file);
    text_reads_back(file);
    assert forall|i: int| 0 <= i < lines.len() implies !(#[trigger] lines[i]).contains('\n') by {
        if lines[i].contains('\n') {
            let j = choose|j: int| 0 <= j < lines[i].len() && lines[i][j] == '\n';
            assert(raw[i][j] == '\n');
            assert(raw[i].contains('\n'));
        }
    }
}

/// A last line that is empty and not ended is read as the ending of the line before it.
pub proof fn empty_last_line_ends_the_text(raw: Seq<Seq<char>>)
    requires
        raw.len() >= 2,
        raw.last().len() == 0,
    ensures
        swap_yaml::text_of_lines(raw, false) == swap_yaml::text_of_lines(raw.drop_last(), true),
    decreases raw.len(),
{
    let shorter = raw.drop_last();
    let rest = raw.drop_first();
    if raw.len() == 2 {
        reveal_with_fuel(text::join, 3);
        assert(rest =~= seq![raw[1]]);
        assert(swap_yaml::text_of_lines(raw, false) =~= raw[0] + seq!['\n']);
        assert(swap_yaml::text_of_lines(shorter, true) =~= raw[0] + seq!['\n']);
    } else {
        empty_last_line_ends_the_text(rest);
        assert(rest.drop_last() =~= shorter.drop_first());
        assert(swap_yaml::text_of_lines(raw, false) =~= raw[0] + seq!['\n']
            + swap_yaml::text_of_lines(rest, false));
        assert(swap_yaml::text_of_lines(shorter, true) =~= raw[0] + seq!['\n']
            + swap_yaml::text_of_lines(rest.drop_last(), true));
    }
}

} // verus!
