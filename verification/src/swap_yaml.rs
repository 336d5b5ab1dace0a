//! Deterministic, text-level handling of `llama-swap.yaml`.
//!
//! Model enablement is a config edit plus a reload signal. This module keeps that edit
//! deterministic: it finds the top-level model entries and toggles a `disabled:` line
//! inside an entry block. There is no general YAML reader: the file is house-authored
//! text and only the structure that the house writes needs to be understood.

use crate::{cmd_block, text};
use vstd::prelude::*;
use vstd::slice::slice_subrange;

verus! {

/// The line that opens the section of model entries.
pub open spec fn opens_models(line: Seq<char>) -> bool {
    line == "models:"@
}

/// Whether a line is a top-level key: it is neither blank nor a comment, and not indented.
pub open spec fn is_top_level(line: Seq<char>) -> bool {
    let kept = text::trim_end(line);
    kept.len() > 0 && kept[0] != '#' && !text::is_white(kept[0])
}

/// The section of model entries: from the `models:` line to the next top-level key.
pub open spec fn section_span(lines: Seq<Seq<char>>) -> Option<(int, int)> {
    let start = text::first_index(lines, 0, |line: Seq<char>| opens_models(line));
    if start < lines.len() {
        Some((start, text::first_index(lines, start + 1, |line: Seq<char>| is_top_level(line))))
    } else {
        None
    }
}

/// A key without one leading and one trailing double quote.
pub open spec fn unquoted(key: Seq<char>) -> Seq<char> {
    let tail = if key.len() > 0 && key[0] == '"' {
        key.drop_first()
    } else {
        key
    };
    if tail.len() > 0 && tail.last() == '"' {
        tail.drop_last()
    } else {
        tail
    }
}

/// The id of the model entry that a line opens: exactly two spaces, the id, a colon
/// and nothing else. Comments, lines that are indented deeper and keys with a space inside
/// open no entry.
pub open spec fn key_of_line(line: Seq<char>) -> Option<Seq<char>> {
    let rest = line.skip(2);
    let colon = text::before(rest, ':') as int;
    let key = text::trim(rest.take(colon));
    if !text::starts_with(line, "  "@) || (rest.len() > 0 && (text::is_white(rest[0]) || rest[0]
        == '#')) {
        None
    } else if colon >= rest.len() || text::trim(rest.skip(colon + 1)).len() > 0 {
        None
    } else if key.len() == 0 || key.contains(' ') {
        None
    } else {
        Some(unquoted(key))
    }
}

/// Match a top-level (exactly two spaces, no comment) entry key line under `models:`
/// and return its unquoted id.
pub fn entry_key(line: &[char]) -> (key: Option<&[char]>)
    ensures
        match key {
            Some(id) => key_of_line(line@) == Some(id@),
            None => key_of_line(line@) is None,
        },
{
    if !text::has_prefix(line, "  ") {
        return None;
    }
    proof {
        reveal_strlit("  ");
    }
    let rest = slice_subrange(line, 2, line.len());
    assert(rest@ =~= line@.skip(2));
    if rest.len() > 0 && (text::is_whitespace(rest[0]) || rest[0] == '#') {
        return None;
    }
    let colon: usize = text::count_before(rest, ':');
    if colon >= rest.len() {
        return None;
    }
    if text::trimmed(slice_subrange(rest, colon + 1, rest.len())).len() > 0 {
        assert(rest@.subrange(colon + 1, rest@.len() as int) =~= rest@.skip(colon + 1));
        return None;
    }
    assert(rest@.subrange(colon + 1, rest@.len() as int) =~= rest@.skip(colon + 1));
    let key = text::trimmed(slice_subrange(rest, 0, colon));
    assert(rest@.subrange(0, colon as int) =~= rest@.take(colon as int));
    if key.len() == 0 || text::has_char(key, ' ') {
        return None;
    }
    let tail = if key[0] == '"' {
        slice_subrange(key, 1, key.len())
    } else {
        key
    };
    assert(key@[0] == '"' ==> tail@ =~= key@.drop_first());
    if tail.len() > 0 && tail[tail.len() - 1] == '"' {
        assert(tail@.drop_last() =~= tail@.subrange(0, tail@.len() - 1));
        Some(slice_subrange(tail, 0, tail.len() - 1))
    } else {
        Some(tail)
    }
}

/// Whether a line opens a model entry.
pub fn is_entry_boundary(line: &[char]) -> (boundary: bool)
    ensures
        boundary == (key_of_line(line@) is Some),
{
    entry_key(line).is_some()
}

/// The line indices of the section of model entries.
pub fn models_section_span(lines: &Vec<Vec<char>>) -> (span: Option<(usize, usize)>)
    ensures
        match span {
            Some((start, end)) => section_span(text::views(lines@)) == Some(
                (start as int, end as int),
            ) && start < end <= lines@.len(),
            None => section_span(text::views(lines@)) is None,
        },
{
    let ghost all = text::views(lines@);
    let ghost opens = |line: Seq<char>| opens_models(line);
    let ghost top = |line: Seq<char>| is_top_level(line);
    let mut start: usize = 0;
    while start < lines.len() && !text::is_text(lines[start].as_slice(), "models:")
        invariant
            start <= lines@.len(),
            all == text::views(lines@),
            forall|i: int| 0 <= i < start ==> !opens_models(#[trigger] all[i]),
        decreases lines@.len() - start,
    {
        start = start + 1;
    }
    proof {
        text::lemma_first_index_is(all, 0, opens, start as int);
    }
    if start >= lines.len() {
        return None;
    }
    let mut end: usize = start + 1;
    while end < lines.len() && !top_level_line(lines[end].as_slice())
        invariant
            start < end <= lines@.len(),
            all == text::views(lines@),
            forall|i: int| start < i < end ==> !is_top_level(#[trigger] all[i]),
        decreases lines@.len() - end,
    {
        end = end + 1;
    }
    proof {
        text::lemma_first_index_is(all, start + 1, top, end as int);
    }
    Some((start, end))
}

/// Whether a line is a top-level key.
fn top_level_line(line: &[char]) -> (top: bool)
    ensures
        top == is_top_level(line@),
{
    let kept = text::before_trailing_white(line);
    kept.len() > 0 && kept[0] != '#' && !text::is_whitespace(kept[0])
}

/// The position behind the entry that starts at `start`: the next entry key, or the
/// end of the section.
pub open spec fn entry_end(section: Seq<Seq<char>>, start: int) -> int {
    text::first_index(section, start + 1, |line: Seq<char>| key_of_line(line) is Some)
}

/// The first entry with key `id`: its key line and the position behind its last line.
pub open spec fn span_of_entry(lines: Seq<Seq<char>>, id: Seq<char>) -> Option<(int, int)> {
    match section_span(lines) {
        Some((start, end)) => {
            let section = lines.take(end);
            let first = text::first_index(
                section,
                start + 1,
                |line: Seq<char>| key_of_line(line) == Some(id),
            );
            if first < end {
                Some((first, entry_end(section, first)))
            } else {
                None
            }
        },
        None => None,
    }
}

/// The position behind the entry that starts at `start` inside a section up to `end`.
fn find_entry_end(lines: &Vec<Vec<char>>, start: usize, end: usize) -> (stop: usize)
    requires
        start < end <= lines@.len(),
    ensures
        stop == entry_end(text::views(lines@).take(end as int), start as int),
        start < stop <= end,
{
    let ghost section = text::views(lines@).take(end as int);
    let mut stop: usize = start + 1;
    while stop < end && !is_entry_boundary(lines[stop].as_slice())
        invariant
            start < stop <= end <= lines@.len(),
            section == text::views(lines@).take(end as int),
            forall|i: int| start < i < stop ==> key_of_line(#[trigger] section[i]) is None,
        decreases end - stop,
    {
        assert(section[stop as int] == lines@[stop as int]@);
        stop = stop + 1;
    }
    proof {
        if stop < end {
            assert(section[stop as int] == lines@[stop as int]@);
        }
        text::lemma_first_index_is(
            section,
            start + 1,
            |line: Seq<char>| key_of_line(line) is Some,
            stop as int,
        );
    }
    stop
}

/// The lines of the first entry with key `id`.
pub fn find_entry(lines: &Vec<Vec<char>>, id: &[char]) -> (span: Option<(usize, usize)>)
    ensures
        match span {
            Some((start, end)) => span_of_entry(text::views(lines@), id@) == Some(
                (start as int, end as int),
            ) && start < end <= lines@.len(),
            None => span_of_entry(text::views(lines@), id@) is None,
        },
{
    let (section_start, section_end) = match models_section_span(lines) {
        Some(span) => span,
        None => {
            return None;
        },
    };
    let ghost section = text::views(lines@).take(section_end as int);
    let ghost called = |line: Seq<char>| key_of_line(line) == Some(id@);
    let mut index: usize = section_start + 1;
    while index < section_end
        invariant
            section_start < index <= section_end <= lines@.len(),
            section == text::views(lines@).take(section_end as int),
            section_span(text::views(lines@)) == Some((section_start as int, section_end as int)),
            forall|i: int|
                section_start < i < index ==> key_of_line(#[trigger] section[i]) != Some(id@),
            called == (|line: Seq<char>| key_of_line(line) == Some(id@)),
        decreases section_end - index,
    {
        assert(section[index as int] == lines@[index as int]@);
        let found = match entry_key(lines[index].as_slice()) {
            Some(key) => text::same_text(key, id),
            None => false,
        };
        if found {
            proof {
                text::lemma_first_index_is(section, section_start + 1, called, index as int);
            }
            let end: usize = find_entry_end(lines, index, section_end);
            return Some((index, end));
        }
        index = index + 1;
    }
    proof {
        text::lemma_first_index_is(section, section_start + 1, called, section_end as int);
    }
    None
}

/// Line span (start index of the entry key line, exclusive end) of the top-level entry
/// with key `id`. Used by text-level entry edits.
pub fn entry_span(lines: &[&str], id: &str) -> (span: Option<(usize, usize)>)
    ensures
        match span {
            Some((start, end)) => span_of_entry(text::views(lines@), id@) == Some(
                (start as int, end as int),
            ) && start < end <= lines@.len(),
            None => span_of_entry(text::views(lines@), id@) is None,
        },
{
    let chars = text::lines_of(lines);
    assert(text::views(chars@).len() == text::views(lines@).len());
    find_entry(&chars, text::chars_of(id).as_slice())
}

/// `s` without every repetition of `prefix` at its start.
pub open spec fn without_prefixes(s: Seq<char>, prefix: Seq<char>) -> Seq<char>
    decreases s.len(),
{
    if prefix.len() > 0 && text::starts_with(s, prefix) {
        without_prefixes(s.skip(prefix.len() as int), prefix)
    } else {
        s
    }
}

/// Whether a line switches its entry off: the key `disabled:` with a value that starts
/// with `true`.
pub open spec fn disables(line: Seq<char>) -> bool {
    let kept = text::trim_start(line);
    text::starts_with(kept, "disabled:"@) && text::starts_with(
        text::trim(without_prefixes(kept, "disabled:"@)),
        "true"@,
    )
}

/// Whether a line has the active key `disabled:`, whatever its value.
pub open spec fn is_disabled_key(line: Seq<char>) -> bool {
    text::starts_with(text::trim_start(line), "disabled:"@)
}

/// Whether a line has the active key `disabled:`.
fn disabled_key(line: &[char]) -> (found: bool)
    ensures
        found == is_disabled_key(line@),
{
    text::has_prefix(text::after_leading_white(line), "disabled:")
}

/// Whether a line switches its entry off.
pub fn is_disabled_line(line: &[char]) -> (disabled: bool)
    ensures
        disabled == disables(line@),
{
    let kept = text::after_leading_white(line);
    if !text::has_prefix(kept, "disabled:") {
        return false;
    }
    proof {
        reveal_strlit("disabled:");
    }
    let mut rest = kept;
    while text::has_prefix(rest, "disabled:")
        invariant
            "disabled:"@.len() == 9,
            without_prefixes(rest@, "disabled:"@) == without_prefixes(kept@, "disabled:"@),
        decreases rest@.len(),
    {
        let shorter = slice_subrange(rest, 9, rest.len());
        assert(shorter@ =~= rest@.skip(9));
        rest = shorter;
    }
    text::has_prefix(text::trimmed(rest), "true")
}

/// Whether a token announces the path of the model.
pub open spec fn is_model_flag(token: Seq<char>) -> bool {
    token == "-m"@ || token == "--model"@
}

/// The position of the first model flag that another token follows, or the number of
/// tokens if there is none.
pub open spec fn model_flag_index(tokens: Seq<Seq<char>>, from: int) -> int
    decreases tokens.len() - from,
{
    if from + 1 >= tokens.len() {
        tokens.len() as int
    } else if is_model_flag(tokens[from]) {
        from
    } else {
        model_flag_index(tokens, from + 1)
    }
}

/// The model path on a line: the word behind the first model flag, unless the line is a
/// comment or that word looks like a flag.
pub open spec fn path_on_line(line: Seq<char>) -> Option<Seq<char>> {
    let kept = text::trim_start(line);
    let tokens = text::words(kept);
    let at = model_flag_index(tokens, 0);
    if text::starts_with_char(kept, '#') || at >= tokens.len() {
        None
    } else if tokens[at + 1].len() == 0 || tokens[at + 1][0] == '-' {
        None
    } else {
        Some(tokens[at + 1])
    }
}

/// Whether a token announces the path of the model.
pub fn model_flag(token: &[char]) -> (found: bool)
    ensures
        found == is_model_flag(token@),
{
    text::is_text(token, "-m") || text::is_text(token, "--model")
}

/// The model path on a line.
pub fn model_path(line: &[char]) -> (path: Option<Vec<char>>)
    ensures
        match path {
            Some(p) => path_on_line(line@) == Some(p@),
            None => path_on_line(line@) is None,
        },
{
    let kept = text::after_leading_white(line);
    if kept.len() > 0 && kept[0] == '#' {
        return None;
    }
    let tokens = text::split_words(kept);
    let ghost all = text::views(tokens@);
    let mut i: usize = 0;
    while tokens.len() - i > 1
        invariant
            i <= tokens@.len(),
            all == text::views(tokens@),
            model_flag_index(all, 0) == model_flag_index(all, i as int),
            all == text::words(text::trim_start(line@)),
            !text::starts_with_char(text::trim_start(line@), '#'),
        decreases tokens@.len() - i,
    {
        assert(all[i as int] == tokens@[i as int]@);
        if model_flag(tokens[i].as_slice()) {
            assert(all[i + 1] == tokens@[i + 1]@);
            if tokens[i + 1].len() == 0 || tokens[i + 1][0] == '-' {
                return None;
            }
            return Some(text::copy_chars(tokens[i + 1].as_slice()));
        }
        i = i + 1;
    }
    None
}

/// A top-level model entry of the file.
#[derive(Debug, Clone, PartialEq, Eq)]
pub struct SwapYamlEntry {
    pub id: String,
    pub disabled: bool,
    /// First `-m` (or `--model`) path found in the entry's cmd block.
    pub model_path: Option<String>,
}

/// What a `SwapYamlEntry` says, with texts as character sequences.
pub struct EntrySpec {
    pub id: Seq<char>,
    pub disabled: bool,
    pub model_path: Option<Seq<char>>,
}

/// The text in an optional string.
pub open spec fn text_of(s: Option<String>) -> Option<Seq<char>> {
    match s {
        Some(t) => Some(t@),
        None => None,
    }
}

impl View for SwapYamlEntry {
    type V = EntrySpec;

    open spec fn view(&self) -> EntrySpec {
        EntrySpec { id: self.id@, disabled: self.disabled, model_path: text_of(self.model_path) }
    }
}

/// Whether any of the lines switches the entry off.
pub open spec fn any_disables(body: Seq<Seq<char>>) -> bool {
    exists|i: int| 0 <= i < body.len() && disables(#[trigger] body[i])
}

/// The model path on the first line that has one.
pub open spec fn first_path(body: Seq<Seq<char>>) -> Option<Seq<char>>
    decreases body.len(),
{
    if body.len() == 0 {
        None
    } else if path_on_line(body[0]) is Some {
        path_on_line(body[0])
    } else {
        first_path(body.drop_first())
    }
}

/// The command of an entry with the lines `body` below its key: the first `cmd:` line and
/// the block below it.
pub open spec fn command_lines(body: Seq<Seq<char>>) -> Seq<Seq<char>> {
    let key = text::first_index(body, 0, |line: Seq<char>| cmd_block::has_cmd_key(line));
    if key < body.len() {
        body.subrange(key, cmd_block::block_end(body, key))
    } else {
        Seq::empty()
    }
}

/// The entry with key `id` and the lines `body` below its key. The model path is the first
/// one in its command.
pub open spec fn entry_of(id: Seq<char>, body: Seq<Seq<char>>) -> EntrySpec {
    EntrySpec { id, disabled: any_disables(body), model_path: first_path(command_lines(body)) }
}

/// The entries of a section, from position `from` on.
pub open spec fn entries_from(section: Seq<Seq<char>>, from: int) -> Seq<EntrySpec>
    decreases section.len() - from,
{
    if from < 0 || from >= section.len() {
        Seq::empty()
    } else {
        match key_of_line(section[from]) {
            Some(id) => {
                let end = entry_end(section, from);
                proof {
                    text::lemma_first_index(
                        section,
                        from + 1,
                        |line: Seq<char>| key_of_line(line) is Some,
                    );
                }
                seq![entry_of(id, section.subrange(from + 1, end))] + entries_from(section, end)
            },
            None => entries_from(section, from + 1),
        }
    }
}

/// The model entries of the file with these lines.
pub open spec fn entries_of_lines(lines: Seq<Seq<char>>) -> Seq<EntrySpec> {
    match section_span(lines) {
        Some((start, end)) => entries_from(lines.take(end), start + 1),
        None => Seq::empty(),
    }
}

/// The model entries of a file.
pub open spec fn entries_of(file: Seq<char>) -> Seq<EntrySpec> {
    entries_of_lines(text::lines(file))
}

/// Whether one of the lines from `start` to `end` switches the entry off.
fn block_disables(lines: &Vec<Vec<char>>, start: usize, end: usize) -> (found: bool)
    requires
        start <= end <= lines@.len(),
    ensures
        found == any_disables(text::views(lines@).subrange(start as int, end as int)),
{
    let ghost body = text::views(lines@).subrange(start as int, end as int);
    for i in start..end
        invariant
            start <= end <= lines@.len(),
            body == text::views(lines@).subrange(start as int, end as int),
            forall|j: int| 0 <= j < i - start ==> !disables(#[trigger] body[j]),
    {
        assert(body[i - start] == lines@[i as int]@);
        if is_disabled_line(lines[i].as_slice()) {
            return true;
        }
    }
    false
}

/// The first model path on the lines from `start` to `end`.
fn block_path(lines: &Vec<Vec<char>>, start: usize, end: usize) -> (path: Option<String>)
    requires
        start <= end <= lines@.len(),
    ensures
        text_of(path) == first_path(text::views(lines@).subrange(start as int, end as int)),
{
    let ghost all = text::views(lines@);
    let mut i: usize = start;
    while i < end
        invariant
            start <= i <= end <= lines@.len(),
            all == text::views(lines@),
            first_path(all.subrange(start as int, end as int)) == first_path(
                all.subrange(i as int, end as int),
            ),
        decreases end - i,
    {
        let ghost rest = all.subrange(i as int, end as int);
        assert(rest[0] == lines@[i as int]@);
        assert(rest.drop_first() =~= all.subrange(i + 1, end as int));
        match model_path(lines[i].as_slice()) {
            Some(path) => {
                return Some(text::string_of(path.as_slice()));
            },
            None => {},
        }
        i = i + 1;
    }
    None
}

/// The first model path in the command of the entry with the lines from `start` to `end`
/// below its key.
fn command_path(lines: &Vec<Vec<char>>, start: usize, end: usize) -> (path: Option<String>)
    requires
        start <= end <= lines@.len(),
    ensures
        text_of(path) == first_path(
            command_lines(text::views(lines@).subrange(start as int, end as int)),
        ),
{
    let ghost all = text::views(lines@);
    let ghost body = all.subrange(start as int, end as int);
    let ghost has_key = |line: Seq<char>| cmd_block::has_cmd_key(line);
    let mut key: usize = start;
    while key < end && !cmd_block::cmd_key(lines[key].as_slice())
        invariant
            start <= key <= end <= lines@.len(),
            all == text::views(lines@),
            body == all.subrange(start as int, end as int),
            forall|i: int| 0 <= i < key - start ==> !cmd_block::has_cmd_key(#[trigger] body[i]),
        decreases end - key,
    {
        assert(body[key - start] == lines@[key as int]@);
        key = key + 1;
    }
    proof {
        if key < end {
            assert(body[key - start] == lines@[key as int]@);
        }
        text::lemma_first_index_is(body, 0, has_key, key - start);
    }
    if key >= end {
        return None;
    }
    let stop: usize = cmd_block::find_block_end(lines, key, end);
    proof {
        crate::block_laws::lemma_block_end_shift(all, start as int, end as int, key as int);
        assert(body.subrange(key - start, stop - start) =~= all.subrange(
            key as int,
            stop as int,
        ));
    }
    block_path(lines, key, stop)
}

/// Parse every active (non-commented) top-level model entry.
pub fn parse_entries(file: &str) -> (entries: Vec<SwapYamlEntry>)
    ensures
        text::views(entries@) == entries_of(file@),
{
    broadcast use text::lemma_views_push;

    let lines = text::split_lines(text::chars_of(file).as_slice());
    let ghost all = text::views(lines@);
    let mut entries: Vec<SwapYamlEntry> = Vec::new();
    let (section_start, section_end) = match models_section_span(&lines) {
        Some(span) => span,
        None => {
            assert(text::views(entries@) =~= entries_of(file@));
            return entries;
        },
    };
    let ghost section = all.take(section_end as int);
    let mut index: usize = section_start + 1;
    assert(text::views(entries@) + entries_from(section, index as int) =~= entries_of(file@));
    while index < section_end
        invariant
            index <= section_end <= lines@.len(),
            all == text::views(lines@),
            section == all.take(section_end as int),
            text::views(entries@) + entries_from(section, index as int) == entries_of(file@),
        decreases section_end - index,
    {
        assert(section[index as int] == lines@[index as int]@);
        match entry_key(lines[index].as_slice()) {
            Some(id) => {
                let end: usize = find_entry_end(&lines, index, section_end);
                let ghost body = section.subrange(index + 1, end as int);
                assert(body =~= all.subrange(index + 1, end as int));
                let ghost earlier = text::views(entries@);
                let entry = SwapYamlEntry {
                    id: text::string_of(id),
                    disabled: block_disables(&lines, index + 1, end),
                    model_path: command_path(&lines, index + 1, end),
                };
                assert(entry@ == entry_of(id@, body));
                entries.push(entry);
                assert(earlier.push(entry@) + entries_from(section, end as int) =~= earlier
                    + entries_from(section, index as int));
                index = end;
            },
            None => {
                index = index + 1;
            },
        }
    }
    assert(text::views(entries@) + Seq::<EntrySpec>::empty() =~= text::views(entries@));
    entries
}

/// Why an edit of the file was refused.
#[derive(Debug, Clone, PartialEq, Eq)]
pub enum SwapYamlError {
    /// The file has no `models:` section.
    NoModelsSection,
    /// The `models:` section has no entry with this id.
    ModelNotFound(String),
    /// The entry with this id has no `cmd:` line.
    NoCmdBlock(String),
}

/// The name of what the standard library's `Debug` formatting writes for a string: the
/// text in double quotes, with escapes.
pub uninterp spec fn debug_text(s: Seq<char>) -> Seq<char>;

/// `format!("{s:?}")` of the standard library. The result is a function of the text
/// alone; which characters are escaped, and how, is not stated.
#[verifier::external_body]
pub(crate) fn debug_string(s: &str) -> (quoted: String)
    ensures
        quoted@ == debug_text(s@),
{
    format!("{s:?}")
}

/// The message for a model that was not found, given its id in quotes.
pub open spec fn not_found_text(quoted: Seq<char>) -> Seq<char> {
    "model "@ + quoted + " not found in llama-swap.yaml"@
}

/// The message for an entry without a command block, given its id in quotes.
pub open spec fn no_block_text(quoted: Seq<char>) -> Seq<char> {
    "entry "@ + quoted + " has no cmd block"@
}

/// The message for a model that was not found, given its id in quotes.
pub fn not_found_message(quoted: &str) -> (message: String)
    ensures
        message@ == not_found_text(quoted@),
{
    let mut message = "model ".to_owned();
    message.append(quoted);
    message.append(" not found in llama-swap.yaml");
    message
}

/// The message for an entry without a command block, given its id in quotes.
pub fn no_block_message(quoted: &str) -> (message: String)
    ensures
        message@ == no_block_text(quoted@),
{
    let mut message = "entry ".to_owned();
    message.append(quoted);
    message.append(" has no cmd block");
    message
}

impl SwapYamlError {
    /// The message of an error.
    pub open spec fn message_text(self) -> Seq<char> {
        match self {
            SwapYamlError::NoModelsSection => "no models section found"@,
            SwapYamlError::ModelNotFound(id) => not_found_text(debug_text(id@)),
            SwapYamlError::NoCmdBlock(id) => no_block_text(debug_text(id@)),
        }
    }

    /// The message of an error.
    pub fn message(&self) -> (message: String)
        ensures
            message@ == self.message_text(),
    {
        match self {
            SwapYamlError::NoModelsSection => "no models section found".to_owned(),
            SwapYamlError::ModelNotFound(id) => not_found_message(
                debug_string(id.as_str()).as_str(),
            ),
            SwapYamlError::NoCmdBlock(id) => no_block_message(debug_string(id.as_str()).as_str()),
        }
    }
}

/// The lines as a text, with a final line ending where `ended`.
pub open spec fn text_of_lines(lines: Seq<Seq<char>>, ended: bool) -> Seq<char> {
    text::join(lines, seq!['\n']) + if ended {
        seq!['\n']
    } else {
        Seq::empty()
    }
}

/// Whether a text ends with a line ending.
pub open spec fn is_ended(file: Seq<char>) -> bool {
    file.len() > 0 && file.last() == '\n'
}

/// The lines without those that have the active key `disabled:`.
pub open spec fn enabled_lines(body: Seq<Seq<char>>) -> Seq<Seq<char>>
    decreases body.len(),
{
    if body.len() == 0 {
        Seq::empty()
    } else if is_disabled_key(body.last()) {
        enabled_lines(body.drop_last())
    } else {
        enabled_lines(body.drop_last()).push(body.last())
    }
}

/// The lines with the entry at `span` switched off: one line below its key.
pub open spec fn with_disabled_line(lines: Seq<Seq<char>>, span: (int, int)) -> Seq<Seq<char>> {
    lines.take(span.0 + 1) + seq!["    disabled: true"@] + lines.skip(span.0 + 1)
}

/// The lines with the entry at `span` switched on: its block without its active
/// `disabled:` lines.
pub open spec fn without_disabled_lines(lines: Seq<Seq<char>>, span: (int, int)) -> Seq<Seq<char>> {
    lines.take(span.0 + 1) + enabled_lines(lines.subrange(span.0 + 1, span.1)) + lines.skip(span.1)
}

/// The file with the entry at `span` switched off or on. A file whose entry is already
/// switched off stays as it is. Every line that is kept keeps its own ending.
pub open spec fn with_disabled(file: Seq<char>, span: (int, int), disable: bool) -> Seq<char> {
    let raw = text::raw_lines(file);
    if disable {
        if any_disables(text::lines(file).subrange(span.0 + 1, span.1)) {
            file
        } else {
            text_of_lines(with_disabled_line(raw, span), is_ended(file))
        }
    } else {
        text_of_lines(without_disabled_lines(raw, span), is_ended(file))
    }
}

/// Appends copies of the lines from `start` to `end`.
pub(crate) fn append_lines(out: &mut Vec<Vec<char>>, lines: &Vec<Vec<char>>, start: usize, end: usize)
    requires
        start <= end <= lines@.len(),
    ensures
        text::views(final(out)@) == text::views(old(out)@) + text::views(lines@).subrange(
            start as int,
            end as int,
        ),
{
    let ghost before = text::views(out@);
    let ghost all = text::views(lines@);
    assert(before + all.subrange(start as int, start as int) =~= before);
    for i in start..end
        invariant
            start <= end <= lines@.len(),
            all == text::views(lines@),
            text::views(out@) == before + all.subrange(start as int, i as int),
    {
        let ghost earlier = out@;
        out.push(text::copy_chars(lines[i].as_slice()));
        proof {
            text::lemma_views_push(earlier, out@.last());
            assert(text::views(out@) =~= before + all.subrange(start as int, i + 1));
        }
    }
}

/// The lines as a text, with a final line ending where `ended`.
pub(crate) fn assemble(lines: &Vec<Vec<char>>, ended: bool) -> (file: String)
    ensures
        file@ == text_of_lines(text::views(lines@), ended),
{
    let mut joined = text::join_chars(lines, '\n');
    if ended {
        joined.push('\n');
    }
    assert(joined@ =~= text_of_lines(text::views(lines@), ended));
    text::string_of(joined.as_slice())
}

/// Toggle `disabled: true` inside the entry block for `id`.
///
/// Disabling inserts `    disabled: true` directly under the entry key. Enabling
/// removes any active `disabled:` line from the block. Every other line keeps its text and
/// its line ending; commented lines are never touched, matching the house style of
/// commented-out historical config.
pub fn set_disabled(file: &str, id: &str, disable: bool) -> (result: Result<String, SwapYamlError>)
    ensures
        match result {
            Ok(updated) => match span_of_entry(text::lines(file@), id@) {
                Some(span) => updated@ == with_disabled(file@, span, disable),
                None => false,
            },
            Err(SwapYamlError::NoModelsSection) => section_span(text::lines(file@)) is None,
            Err(SwapYamlError::ModelNotFound(missing)) => section_span(text::lines(file@)) is Some
                && span_of_entry(text::lines(file@), id@) is None && missing@ == id@,
            Err(SwapYamlError::NoCmdBlock(_)) => false,
        },
{
    let chars = text::chars_of(file);
    let ended = chars.len() > 0 && chars[chars.len() - 1] == '\n';
    let lines = text::split_lines(chars.as_slice());
    let raw = text::split_raw_lines(chars.as_slice());
    let ghost all = text::views(raw@);
    if models_section_span(&lines).is_none() {
        return Err(SwapYamlError::NoModelsSection);
    }
    let (start, end) = match find_entry(&lines, text::chars_of(id).as_slice()) {
        Some(span) => span,
        None => {
            return Err(SwapYamlError::ModelNotFound(id.to_owned()));
        },
    };
    let mut updated: Vec<Vec<char>> = Vec::new();
    if disable {
        if block_disables(&lines, start + 1, end) {
            return Ok(file.to_owned());
        }
        append_lines(&mut updated, &raw, 0, start + 1);
        let ghost head = updated@;
        updated.push(text::chars_of("    disabled: true"));
        proof {
            text::lemma_views_push(head, updated@.last());
        }
        append_lines(&mut updated, &raw, start + 1, raw.len());
        assert(text::views(updated@) =~= with_disabled_line(all, (start as int, end as int)));
    } else {
        append_lines(&mut updated, &raw, 0, start + 1);
        append_enabled(&mut updated, &raw, start + 1, end);
        append_lines(&mut updated, &raw, end, raw.len());
        assert(text::views(updated@) =~= without_disabled_lines(all, (start as int, end as int)));
    }
    Ok(assemble(&updated, ended))
}

/// Appends copies of those lines from `start` to `end` that do not have the active key
/// `disabled:`.
fn append_enabled(out: &mut Vec<Vec<char>>, lines: &Vec<Vec<char>>, start: usize, end: usize)
    requires
        start <= end <= lines@.len(),
    ensures
        text::views(final(out)@) == text::views(old(out)@) + enabled_lines(
            text::views(lines@).subrange(start as int, end as int),
        ),
{
    let ghost before = text::views(out@);
    let ghost all = text::views(lines@);
    assert(before + enabled_lines(all.subrange(start as int, start as int)) =~= before);
    for i in start..end
        invariant
            start <= end <= lines@.len(),
            all == text::views(lines@),
            text::views(out@) == before + enabled_lines(all.subrange(start as int, i as int)),
    {
        let ghost earlier = out@;
        let ghost body = all.subrange(start as int, i + 1);
        assert(body.drop_last() =~= all.subrange(start as int, i as int));
        assert(body.last() == lines@[i as int]@);
        if !disabled_key(lines[i].as_slice()) {
            out.push(text::copy_chars(lines[i].as_slice()));
            proof {
                text::lemma_views_push(earlier, out@.last());
                assert(text::views(out@) =~= before + enabled_lines(body));
            }
        }
    }
}

/// What the workbench knows of one model of the router.
#[derive(Debug, Clone, PartialEq, Eq)]
pub struct SwapModel {
    pub id: String,
    pub state: String,
    pub name: String,
    pub description: String,
    pub created: Option<u64>,
    pub disabled: bool,
    pub size_bytes: Option<u64>,
}

/// The position of the first entry with key `id`.
pub open spec fn entry_index(entries: Seq<EntrySpec>, id: Seq<char>, from: int) -> Option<int>
    decreases entries.len() - from,
{
    if from < 0 || from >= entries.len() {
        None
    } else if entries[from].id == id {
        Some(from)
    } else {
        entry_index(entries, id, from + 1)
    }
}

/// Whether `after` is `before` with the state of its entry merged in: `sizes` holds
/// the size on disk for each entry. A model without an entry stays as it is.
pub open spec fn is_merged(
    before: SwapModel,
    after: SwapModel,
    entries: Seq<EntrySpec>,
    sizes: Seq<Option<u64>>,
) -> bool {
    match entry_index(entries, before.id@, 0) {
        Some(k) => after == (SwapModel {
            disabled: entries[k].disabled,
            size_bytes: sizes[k],
            ..before
        }),
        None => after == before,
    }
}

/// Merge the config-level state of the entries of `file` into `models`. `sizes` holds,
/// for each entry that `parse_entries` gives, the size of its model on disk.
pub fn merge_into(models: &mut Vec<SwapModel>, file: &str, sizes: &[Option<u64>])
    requires
        sizes@.len() == entries_of(file@).len(),
    ensures
        final(models)@.len() == old(models)@.len(),
        forall|i: int|
            0 <= i < old(models)@.len() ==> is_merged(
                old(models)@[i],
                #[trigger] final(models)@[i],
                entries_of(file@),
                sizes@,
            ),
{
    let entries = parse_entries(file);
    let ghost all = text::views(entries@);
    let ghost given = models@;
    let mut i: usize = 0;
    while i < models.len()
        invariant
            i <= models@.len() == given.len(),
            all == text::views(entries@),
            all == entries_of(file@),
            sizes@.len() == entries@.len(),
            forall|j: int| 0 <= j < i ==> is_merged(given[j], #[trigger] models@[j], all, sizes@),
            forall|j: int| i <= j < given.len() ==> #[trigger] models@[j] == given[j],
        decreases models@.len() - i,
    {
        let ghost id = models@[i as int].id@;
        let mut k: usize = 0;
        while k < entries.len() && !(entries[k].id == models[i].id)
            invariant
                i < models@.len(),
                k <= entries@.len(),
                all == text::views(entries@),
                id == models@[i as int].id@,
                entry_index(all, id, 0) == entry_index(all, id, k as int),
            decreases entries@.len() - k,
        {
            assert(all[k as int].id == entries@[k as int].id@);
            k = k + 1;
        }
        if k < entries.len() {
            assert(all[k as int] == entries@[k as int]@);
            models[i].disabled = entries[k].disabled;
            models[i].size_bytes = sizes[k];
        }
        i = i + 1;
    }
}

} // verus!
