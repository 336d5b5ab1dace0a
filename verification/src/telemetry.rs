//! Resource telemetry: what the listings of processes, devices and counters say.
//!
//! Fractions stay texts here: whether a text is a fraction is decided, but no number is
//! made of it.

use crate::{number, text};
use std::collections::HashSet;
use vstd::prelude::*;
use vstd::slice::slice_subrange;

verus! {

broadcast use vstd::std_specs::hash::group_hash_axioms;

/// One row of the process table.
#[derive(Debug, Clone, PartialEq, Eq)]
pub struct ProcessSample {
    pub pid: u32,
    pub parent_pid: u32,
    pub process_group: u32,
    /// A fraction, as it stands in the table.
    pub cpu_percent: String,
    pub rss_kib: u64,
    pub command: String,
}

/// What a `ProcessSample` says, with texts as character sequences.
pub struct ProcessSpec {
    pub pid: u32,
    pub parent_pid: u32,
    pub process_group: u32,
    pub cpu_percent: Seq<char>,
    pub rss_kib: u64,
    pub command: Seq<char>,
}

impl View for ProcessSample {
    type V = ProcessSpec;

    open spec fn view(&self) -> ProcessSpec {
        ProcessSpec {
            pid: self.pid,
            parent_pid: self.parent_pid,
            process_group: self.process_group,
            cpu_percent: self.cpu_percent@,
            rss_kib: self.rss_kib,
            command: self.command@,
        }
    }
}

/// The text without a sign at its start.
pub open spec fn unsigned_text(s: Seq<char>) -> Seq<char> {
    if s.len() > 0 && (s[0] == '+' || s[0] == '-') {
        s.drop_first()
    } else {
        s
    }
}

/// Whether `s` is `word`, with letters of either case; `word` is in lower case.
pub open spec fn is_word(s: Seq<char>, word: Seq<char>) -> bool {
    s.len() == word.len() && forall|i: int|
        0 <= i < s.len() ==> s[i] == word[i] || s[i] as u32 + 32 == #[trigger] word[i] as u32
}

/// The position of the exponent sign, or the length if there is none.
pub open spec fn exponent_at(s: Seq<char>) -> nat
    decreases s.len(),
{
    if s.len() == 0 || s[0] == 'e' || s[0] == 'E' {
        0
    } else {
        1 + exponent_at(s.drop_first())
    }
}

/// Whether `s` is digits, with at most one point before, between or behind them.
pub open spec fn is_mantissa(s: Seq<char>) -> bool {
    match text::split_once(s, '.') {
        Some((whole, part)) => number::all_digits(whole) && number::all_digits(part) && whole.len()
            + part.len() > 0,
        None => s.len() > 0 && number::all_digits(s),
    }
}

/// Whether `s` is a fraction as the standard library reads one: an optional sign, and
/// then a word for infinity or for no number, or digits with an optional point and an
/// optional exponent.
pub open spec fn is_fraction(s: Seq<char>) -> bool {
    let rest = unsigned_text(s);
    let at = exponent_at(rest) as int;
    ||| is_word(rest, "inf"@)
    ||| is_word(rest, "infinity"@)
    ||| is_word(rest, "nan"@)
    ||| at >= rest.len() && is_mantissa(rest)
    ||| at < rest.len() && is_mantissa(rest.take(at)) && ({
        let exponent = unsigned_text(rest.skip(at + 1));
        exponent.len() > 0 && number::all_digits(exponent)
    })
}

/// The process that a row of the table describes: five fields and the words of the
/// command, if every field can be read and there is a command.
pub open spec fn process_of_row(row: Seq<char>) -> Option<ProcessSpec> {
    let fields = text::words(row);
    if fields.len() < 6 {
        None
    } else {
        match (
            number::parse_unsigned(fields[0], u32::MAX as nat),
            number::parse_unsigned(fields[1], u32::MAX as nat),
            number::parse_unsigned(fields[2], u32::MAX as nat),
            number::parse_unsigned(fields[4], u64::MAX as nat),
        ) {
            (Some(pid), Some(parent_pid), Some(process_group), Some(rss_kib)) => if is_fraction(
                fields[3],
            ) {
                Some(
                    ProcessSpec {
                        pid: pid as u32,
                        parent_pid: parent_pid as u32,
                        process_group: process_group as u32,
                        cpu_percent: fields[3],
                        rss_kib: rss_kib as u64,
                        command: text::join(fields.skip(5), seq![' ']),
                    },
                )
            } else {
                None
            },
            _ => None,
        }
    }
}

/// The processes of a table; rows that describe none are passed over.
pub open spec fn processes_of_lines(lines: Seq<Seq<char>>) -> Seq<ProcessSpec>
    decreases lines.len(),
{
    if lines.len() == 0 {
        Seq::empty()
    } else {
        match process_of_row(lines.last()) {
            Some(process) => processes_of_lines(lines.drop_last()).push(process),
            None => processes_of_lines(lines.drop_last()),
        }
    }
}

fn after_sign(s: &[char]) -> (rest: &[char])
    ensures
        rest@ == unsigned_text(s@),
{
    if s.len() > 0 && (s[0] == '+' || s[0] == '-') {
        let rest = slice_subrange(s, 1, s.len());
        assert(rest@ =~= s@.drop_first());
        rest
    } else {
        s
    }
}

fn digits_only(s: &[char]) -> (found: bool)
    ensures
        found == number::all_digits(s@),
{
    for i in 0..s.len()
        invariant
            forall|j: int| 0 <= j < i ==> number::is_digit(#[trigger] s@[j]),
    {
        if !('0' <= s[i] && s[i] <= '9') {
            assert(!number::is_digit(s@[i as int]));
            return false;
        }
    }
    true
}

fn mantissa_only(s: &[char]) -> (found: bool)
    ensures
        found == is_mantissa(s@),
{
    match text::split_at_char(s, '.') {
        Some((whole, part)) => digits_only(whole) && digits_only(part) && (whole.len() > 0
            || part.len() > 0),
        None => s.len() > 0 && digits_only(s),
    }
}

fn same_word(s: &[char], word: &str) -> (same: bool)
    ensures
        same == is_word(s@, word@),
{
    let letters = text::chars_of(word);
    if s.len() != letters.len() {
        return false;
    }
    for i in 0..s.len()
        invariant
            letters@ == word@,
            s@.len() == letters@.len(),
            forall|j: int|
                0 <= j < i ==> s@[j] == letters@[j] || s@[j] as u32 + 32 == #[trigger] letters@[j] as u32,
    {
        let code: u32 = s[i] as u32;
        let letter: u32 = letters[i] as u32;
        if s[i] != letters[i] && (letter < 32 || code != letter - 32) {
            assert(!(s@[i as int] == word@[i as int] || s@[i as int] as u32 + 32
                == word@[i as int] as u32));
            return false;
        }
    }
    true
}

/// Whether `s` is a fraction.
pub fn reads_as_fraction(s: &[char]) -> (found: bool)
    ensures
        found == is_fraction(s@),
{
    let rest = after_sign(s);
    if same_word(rest, "inf") || same_word(rest, "infinity") || same_word(rest, "nan") {
        return true;
    }
    let mut at: usize = 0;
    assert(rest@.skip(0) =~= rest@);
    while at < rest.len() && rest[at] != 'e' && rest[at] != 'E'
        invariant
            at <= rest@.len(),
            exponent_at(rest@) == at + exponent_at(rest@.skip(at as int)),
        decreases rest@.len() - at,
    {
        assert(rest@.skip(at as int).drop_first() =~= rest@.skip(at + 1));
        at = at + 1;
    }
    assert(exponent_at(rest@.skip(at as int)) == 0);
    if at >= rest.len() {
        return mantissa_only(rest);
    }
    let head = slice_subrange(rest, 0, at);
    let tail = slice_subrange(rest, at + 1, rest.len());
    assert(head@ =~= rest@.take(at as int));
    assert(tail@ =~= rest@.skip(at + 1));
    let exponent = after_sign(tail);
    mantissa_only(head) && exponent.len() > 0 && digits_only(exponent)
}

/// The process that a row of the table describes.
pub fn parse_process_row(row: &[char]) -> (process: Option<ProcessSample>)
    ensures
        match process {
            Some(p) => process_of_row(row@) == Some(p@),
            None => process_of_row(row@) is None,
        },
{
    let fields = text::split_words(row);
    let ghost all = text::views(fields@);
    assert(all.len() == fields@.len());
    if fields.len() <= 5 {
        return None;
    }
    assert(all[0] == fields@[0]@ && all[1] == fields@[1]@ && all[2] == fields@[2]@);
    assert(all[3] == fields@[3]@ && all[4] == fields@[4]@);
    let pid = number::read_unsigned(fields[0].as_slice(), u32::MAX as u64);
    let parent_pid = number::read_unsigned(fields[1].as_slice(), u32::MAX as u64);
    let process_group = number::read_unsigned(fields[2].as_slice(), u32::MAX as u64);
    let rss_kib = number::read_unsigned(fields[4].as_slice(), u64::MAX);
    match (pid, parent_pid, process_group, rss_kib) {
        (Some(pid), Some(parent_pid), Some(process_group), Some(rss_kib)) => {
            if !reads_as_fraction(fields[3].as_slice()) {
                return None;
            }
            let mut command: Vec<Vec<char>> = Vec::new();
            crate::swap_yaml::append_lines(&mut command, &fields, 5, fields.len());
            assert(text::views(command@) =~= all.skip(5));
            Some(
                ProcessSample {
                    pid: pid as u32,
                    parent_pid: parent_pid as u32,
                    process_group: process_group as u32,
                    cpu_percent: text::string_of(fields[3].as_slice()),
                    rss_kib,
                    command: text::string_of(text::join_chars(&command, ' ').as_slice()),
                },
            )
        },
        _ => None,
    }
}

/// The processes of a table.
pub fn parse_process_table(output: &str) -> (processes: Vec<ProcessSample>)
    ensures
        text::views(processes@) == processes_of_lines(text::lines(output@)),
{
    let lines = text::split_lines(text::chars_of(output).as_slice());
    let ghost all = text::views(lines@);
    let mut processes: Vec<ProcessSample> = Vec::new();
    assert(text::views(processes@) =~= processes_of_lines(all.take(0)));
    for i in 0..lines.len()
        invariant
            all == text::views(lines@),
            text::views(processes@) == processes_of_lines(all.take(i as int)),
    {
        proof {
            assert(all.take(i + 1).drop_last() =~= all.take(i as int));
            assert(all.take(i + 1).last() == lines@[i as int]@);
        }
        match parse_process_row(lines[i].as_slice()) {
            Some(process) => {
                let ghost earlier = processes@;
                processes.push(process);
                proof {
                    text::lemma_views_push(earlier, process);
                }
            },
            None => {},
        }
    }
    assert(all.take(all.len() as int) =~= all);
    processes
}

/// Whether `pid` is the process id of a process that descends from `root` over at most
/// `n` processes in between.
pub open spec fn descends(processes: Seq<ProcessSample>, root: u32, pid: u32, n: nat) -> bool
    decreases n,
{
    exists|i: int|
        0 <= i < processes.len() && (#[trigger] processes[i]).pid == pid && (
        processes[i].parent_pid == root || (n > 0 && descends(
            processes,
            root,
            processes[i].parent_pid,
            (n - 1) as nat,
        )))
}

/// Whether `pid` is the process id of a descendant of `root`.
pub open spec fn is_descendant(processes: Seq<ProcessSample>, root: u32, pid: u32) -> bool {
    exists|n: nat| descends(processes, root, pid, n)
}

/// The process ids of the table.
pub open spec fn all_pids(processes: Seq<ProcessSample>) -> Set<u32> {
    processes.map_values(|process: ProcessSample| process.pid).to_set()
}

/// A child of the root or of a descendant is a descendant.
pub proof fn lemma_child_descends(processes: Seq<ProcessSample>, root: u32, i: int)
    requires
        0 <= i < processes.len(),
        processes[i].parent_pid == root || is_descendant(
            processes,
            root,
            processes[i].parent_pid,
        ),
    ensures
        is_descendant(processes, root, processes[i].pid),
{
    if processes[i].parent_pid == root {
        assert(descends(processes, root, processes[i].pid, 0));
    } else {
        let n = choose|n: nat| descends(processes, root, processes[i].parent_pid, n);
        assert(descends(processes, root, processes[i].pid, n + 1));
    }
}

/// Whether a set holds every child of the root and of its own members.
spec fn is_closed(processes: Seq<ProcessSample>, root: u32, set: Set<u32>) -> bool {
    forall|i: int|
        0 <= i < processes.len() && ((#[trigger] processes[i]).parent_pid == root || set.contains(
            processes[i].parent_pid,
        )) ==> set.contains(processes[i].pid)
}

/// Such a set holds every descendant.
proof fn lemma_closed_holds_descendants(
    processes: Seq<ProcessSample>,
    root: u32,
    set: Set<u32>,
    pid: u32,
    n: nat,
)
    requires
        is_closed(processes, root, set),
        descends(processes, root, pid, n),
    ensures
        set.contains(pid),
    decreases n,
{
    let i = choose|i: int|
        0 <= i < processes.len() && (#[trigger] processes[i]).pid == pid && (
        processes[i].parent_pid == root || (n > 0 && descends(
            processes,
            root,
            processes[i].parent_pid,
            (n - 1) as nat,
        )));
    if processes[i].parent_pid != root {
        lemma_closed_holds_descendants(
            processes,
            root,
            set,
            processes[i].parent_pid,
            (n - 1) as nat,
        );
    }
}

/// The process ids of all descendants of a process, of every generation.
pub fn descendant_pids(processes: &[ProcessSample], parent_pid: u32) -> (descendants: HashSet<u32>)
    ensures
        forall|pid: u32| #[trigger]
            descendants@.contains(pid) <==> is_descendant(processes@, parent_pid, pid),
{
    let mut descendants: HashSet<u32> = HashSet::new();
    let ghost pids = all_pids(processes@);
    proof {
        vstd::seq_lib::seq_to_set_is_finite(
            processes@.map_values(|process: ProcessSample| process.pid),
        );
    }
    loop
        invariant
            pids == all_pids(processes@),
            pids.finite(),
            descendants@.finite(),
            descendants@.subset_of(pids),
            forall|pid: u32| #[trigger]
                descendants@.contains(pid) ==> is_descendant(processes@, parent_pid, pid),
        ensures
            is_closed(processes@, parent_pid, descendants@),
        decreases pids.len() - descendants@.len(),
    {
        let before: usize = descendants.len();
        let ghost earlier = descendants@;
        for i in 0..processes.len()
            invariant
                pids == all_pids(processes@),
                pids.finite(),
                descendants@.finite(),
                descendants@.subset_of(pids),
                earlier.subset_of(descendants@),
                earlier.finite(),
                forall|pid: u32| #[trigger]
                    descendants@.contains(pid) ==> is_descendant(processes@, parent_pid, pid),
                forall|j: int|
                    0 <= j < i && ((#[trigger] processes@[j]).parent_pid == parent_pid
                        || earlier.contains(processes@[j].parent_pid)) ==> descendants@.contains(
                        processes@[j].pid,
                    ),
        {
            let process = &processes[i];
            if process.parent_pid == parent_pid || descendants.contains(&process.parent_pid) {
                proof {
                    lemma_child_descends(processes@, parent_pid, i as int);
                    let list = processes@.map_values(|process: ProcessSample| process.pid);
                    assert(list[i as int] == process.pid);
                    assert(pids.contains(process.pid));
                }
                descendants.insert(process.pid);
            }
        }
        proof {
            vstd::set_lib::lemma_len_subset(earlier, descendants@);
            vstd::set_lib::lemma_len_subset(descendants@, pids);
        }
        if descendants.len() == before {
            proof {
                vstd::set_lib::lemma_subset_equality(earlier, descendants@);
            }
            break;
        }
    }
    proof {
        assert forall|pid: u32| is_descendant(processes@, parent_pid, pid) implies #[trigger]
        descendants@.contains(pid) by {
            let n = choose|n: nat| descends(processes@, parent_pid, pid, n);
            lemma_closed_holds_descendants(processes@, parent_pid, descendants@, pid, n);
        }
    }
    descendants
}

/// The process ids of a process group.
pub fn process_group_pids(processes: &[ProcessSample], process_group: u32) -> (pids: HashSet<u32>)
    ensures
        forall|pid: u32| #[trigger]
            pids@.contains(pid) <==> exists|i: int|
                0 <= i < processes@.len() && (#[trigger] processes@[i]).process_group
                    == process_group && processes@[i].pid == pid,
{
    let mut pids: HashSet<u32> = HashSet::new();
    for i in 0..processes.len()
        invariant
            forall|pid: u32| #[trigger]
                pids@.contains(pid) <==> exists|j: int|
                    0 <= j < i && (#[trigger] processes@[j]).process_group == process_group
                        && processes@[j].pid == pid,
    {
        let ghost earlier = pids@;
        if processes[i].process_group == process_group {
            pids.insert(processes[i].pid);
        }
        assert forall|pid: u32| #[trigger] pids@.contains(pid) implies exists|j: int|
            0 <= j < i + 1 && (#[trigger] processes@[j]).process_group == process_group
                && processes@[j].pid == pid by {
            if !earlier.contains(pid) {
                assert(processes@[i as int].pid == pid);
            }
        }
    }
    pids
}

/// The memory of those processes whose ids are selected.
pub open spec fn selected_rss(processes: Seq<ProcessSample>, pids: Set<u32>) -> nat
    decreases processes.len(),
{
    if processes.len() == 0 {
        0
    } else {
        selected_rss(processes.drop_last(), pids) + if pids.contains(processes.last().pid) {
            processes.last().rss_kib as nat
        } else {
            0
        }
    }
}

/// The shares of the processor of those processes whose ids are selected.
pub open spec fn selected_cpu(processes: Seq<ProcessSample>, pids: Set<u32>) -> Seq<Seq<char>>
    decreases processes.len(),
{
    if processes.len() == 0 {
        Seq::empty()
    } else {
        let earlier = selected_cpu(processes.drop_last(), pids);
        if pids.contains(processes.last().pid) {
            earlier.push(processes.last().cpu_percent@)
        } else {
            earlier
        }
    }
}

/// What a selection of processes uses.
#[derive(Debug, Clone, PartialEq, Eq)]
pub struct ProcessTotals {
    pub process_count: usize,
    /// The share of the processor of each process; the total is their sum.
    pub cpu_percents: Vec<String>,
    pub rss_kib: u64,
}

proof fn lemma_selected_rss_grows(processes: Seq<ProcessSample>, pids: Set<u32>, n: int)
    requires
        0 <= n <= processes.len(),
    ensures
        selected_rss(processes.take(n), pids) <= selected_rss(processes, pids),
    decreases processes.len(),
{
    if n == processes.len() {
        assert(processes.take(n) =~= processes);
    } else {
        lemma_selected_rss_grows(processes.drop_last(), pids, n);
        assert(processes.drop_last().take(n) =~= processes.take(n));
    }
}

/// Whether the memory of the selected processes adds up within 64 bits, as [`aggregate`]
/// needs it.
pub fn rss_fits(processes: &[ProcessSample], pids: &HashSet<u32>) -> (fits: bool)
    ensures
        fits == (selected_rss(processes@, pids@) <= u64::MAX),
{
    let mut left: u64 = u64::MAX;
    for i in 0..processes.len()
        invariant
            left == u64::MAX - selected_rss(processes@.take(i as int), pids@),
    {
        proof {
            assert(processes@.take(i + 1).drop_last() =~= processes@.take(i as int));
            lemma_selected_rss_grows(processes@, pids@, i + 1);
        }
        if pids.contains(&processes[i].pid) {
            if processes[i].rss_kib > left {
                return false;
            }
            left = left - processes[i].rss_kib;
        }
    }
    assert(processes@.take(processes@.len() as int) =~= processes@);
    true
}

/// What the processes with the selected ids use.
pub fn aggregate(processes: &[ProcessSample], pids: &HashSet<u32>) -> (totals: ProcessTotals)
    requires
        selected_rss(processes@, pids@) <= u64::MAX,
    ensures
        totals.process_count == pids@.len(),
        text::views(totals.cpu_percents@) == selected_cpu(processes@, pids@),
        totals.rss_kib == selected_rss(processes@, pids@),
{
    let mut cpu_percents: Vec<String> = Vec::new();
    let mut rss_kib: u64 = 0;
    assert(text::views(cpu_percents@) =~= selected_cpu(processes@.take(0), pids@));
    for i in 0..processes.len()
        invariant
            selected_rss(processes@, pids@) <= u64::MAX,
            text::views(cpu_percents@) == selected_cpu(processes@.take(i as int), pids@),
            rss_kib == selected_rss(processes@.take(i as int), pids@),
    {
        proof {
            assert(processes@.take(i + 1).drop_last() =~= processes@.take(i as int));
            lemma_selected_rss_grows(processes@, pids@, i + 1);
        }
        if pids.contains(&processes[i].pid) {
            let ghost earlier = cpu_percents@;
            cpu_percents.push(processes[i].cpu_percent.clone());
            proof {
                text::lemma_views_push(earlier, cpu_percents@.last());
            }
            rss_kib = rss_kib + processes[i].rss_kib;
        }
    }
    assert(processes@.take(processes@.len() as int) =~= processes@);
    ProcessTotals { process_count: pids.len(), cpu_percents, rss_kib }
}

/// The name of the executable of a command: what follows the last slash.
pub fn command_name(command: &str) -> (name: String)
    ensures
        name@ == text::behind_last(command@, '/'),
{
    let chars = text::chars_of(command);
    text::string_of(text::after_last(chars.as_slice(), '/'))
}

/// The position of the first process, from `from` on, with a command of that name.
pub open spec fn named_from(processes: Seq<ProcessSample>, name: Seq<char>, from: int) -> Option<
    int,
>
    decreases processes.len() - from,
{
    if from < 0 || from >= processes.len() {
        None
    } else if text::behind_last(processes[from].command@, '/') == name {
        Some(from)
    } else {
        named_from(processes, name, from + 1)
    }
}

/// The process id of the first process whose executable has that name.
pub fn find_process_named(processes: &[ProcessSample], name: &str) -> (pid: Option<u32>)
    ensures
        match named_from(processes@, name@, 0) {
            Some(i) => 0 <= i < processes@.len() && pid == Some(processes@[i].pid),
            None => pid is None,
        },
{
    let wanted = text::chars_of(name);
    let mut i: usize = 0;
    while i < processes.len()
        invariant
            i <= processes@.len(),
            wanted@ == name@,
            named_from(processes@, name@, 0) == named_from(processes@, name@, i as int),
        decreases processes@.len() - i,
    {
        let found = command_name(processes[i].command.as_str());
        if text::is_text(wanted.as_slice(), found.as_str()) {
            return Some(processes[i].pid);
        }
        i = i + 1;
    }
    None
}

/// The memory that a row of the device's listing says a selected process uses.
pub open spec fn row_memory(row: Seq<char>, pids: Set<u32>) -> nat {
    match text::split_once(row, ',') {
        Some((pid, memory)) => match (
            number::parse_unsigned(text::trim(pid), u32::MAX as nat),
            number::parse_unsigned(text::trim(memory), u64::MAX as nat),
        ) {
            (Some(pid), Some(memory)) => if pids.contains(pid as u32) {
                memory
            } else {
                0
            },
            _ => 0,
        },
        None => 0,
    }
}

/// The memory that the rows of the device's listing say the selected processes use.
pub open spec fn rows_memory(rows: Seq<Seq<char>>, pids: Set<u32>) -> nat
    decreases rows.len(),
{
    if rows.len() == 0 {
        0
    } else {
        rows_memory(rows.drop_last(), pids) + row_memory(rows.last(), pids)
    }
}

proof fn lemma_rows_memory_grows(rows: Seq<Seq<char>>, pids: Set<u32>, n: int)
    requires
        0 <= n <= rows.len(),
    ensures
        rows_memory(rows.take(n), pids) <= rows_memory(rows, pids),
    decreases rows.len(),
{
    if n == rows.len() {
        assert(rows.take(n) =~= rows);
    } else {
        lemma_rows_memory_grows(rows.drop_last(), pids, n);
        assert(rows.drop_last().take(n) =~= rows.take(n));
    }
}

fn read_row_memory(row: &[char], pids: &HashSet<u32>) -> (memory: u64)
    ensures
        memory == row_memory(row@, pids@),
{
    match text::split_at_char(row, ',') {
        Some((pid, memory)) => {
            let pid = number::read_unsigned(text::trimmed(pid), u32::MAX as u64);
            let memory = number::read_unsigned(text::trimmed(memory), u64::MAX);
            match (pid, memory) {
                (Some(pid), Some(memory)) => {
                    if pids.contains(&(pid as u32)) {
                        memory
                    } else {
                        0
                    }
                },
                _ => 0,
            }
        },
        None => 0,
    }
}

/// The device memory that the selected processes use.
pub fn parse_gpu_memory(output: &str, pids: &HashSet<u32>) -> (memory: u64)
    requires
        rows_memory(text::lines(output@), pids@) <= u64::MAX,
    ensures
        memory == rows_memory(text::lines(output@), pids@),
{
    let rows = text::split_lines(text::chars_of(output).as_slice());
    let ghost all = text::views(rows@);
    let mut memory: u64 = 0;
    for i in 0..rows.len()
        invariant
            all == text::views(rows@),
            rows_memory(all, pids@) <= u64::MAX,
            memory == rows_memory(all.take(i as int), pids@),
    {
        proof {
            assert(all.take(i + 1).drop_last() =~= all.take(i as int));
            assert(all.take(i + 1).last() == rows@[i as int]@);
            lemma_rows_memory_grows(all, pids@, i + 1);
        }
        memory = memory + read_row_memory(rows[i].as_slice(), pids);
    }
    assert(all.take(all.len() as int) =~= all);
    memory
}

/// Whether the device memory of the selected processes adds up within 64 bits, as
/// [`parse_gpu_memory`] needs it.
pub fn gpu_memory_fits(output: &str, pids: &HashSet<u32>) -> (fits: bool)
    ensures
        fits == (rows_memory(text::lines(output@), pids@) <= u64::MAX),
{
    let rows = text::split_lines(text::chars_of(output).as_slice());
    let ghost all = text::views(rows@);
    let mut left: u64 = u64::MAX;
    for i in 0..rows.len()
        invariant
            all == text::views(rows@),
            all == text::lines(output@),
            left == u64::MAX - rows_memory(all.take(i as int), pids@),
    {
        proof {
            assert(all.take(i + 1).drop_last() =~= all.take(i as int));
            assert(all.take(i + 1).last() == rows@[i as int]@);
            lemma_rows_memory_grows(all, pids@, i + 1);
        }
        let memory: u64 = read_row_memory(rows[i].as_slice(), pids);
        if memory > left {
            return false;
        }
        left = left - memory;
    }
    assert(all.take(all.len() as int) =~= all);
    true
}

/// The number in the fourth word of a line.
pub open spec fn free_kib(line: Seq<char>) -> Option<nat> {
    let words = text::words(line);
    if words.len() > 3 {
        number::parse_unsigned(words[3], u64::MAX as nat)
    } else {
        None
    }
}

/// The number in the fourth word of the first line, from `from` on, that has one.
pub open spec fn free_kib_from(lines: Seq<Seq<char>>, from: int) -> Option<nat>
    decreases lines.len() - from,
{
    if from < 0 || from >= lines.len() {
        None
    } else if free_kib(lines[from]) is Some {
        free_kib(lines[from])
    } else {
        free_kib_from(lines, from + 1)
    }
}

/// The free space on a disk in MiB, out of the lines of its listing in KiB, of which the
/// first is a heading.
pub open spec fn free_mib(lines: Seq<Seq<char>>) -> Option<nat> {
    match free_kib_from(lines, 1) {
        Some(kib) => Some(kib / 1024),
        None => None,
    }
}

/// The free space on a disk in MiB, out of its listing in KiB with one heading line.
pub fn disk_free_mib(output: &str) -> (free: Option<u64>)
    ensures
        match free {
            Some(mib) => free_mib(text::lines(output@)) == Some(mib as nat),
            None => free_mib(text::lines(output@)) is None,
        },
{
    let lines = text::split_lines(text::chars_of(output).as_slice());
    let ghost all = text::views(lines@);
    let mut i: usize = 1;
    while i < lines.len()
        invariant
            1 <= i,
            all == text::views(lines@),
            all == text::lines(output@),
            free_kib_from(all, 1) == free_kib_from(all, i as int),
        decreases lines@.len() - i,
    {
        let words = text::split_words(lines[i].as_slice());
        assert(all[i as int] == lines@[i as int]@);
        assert(text::views(words@).len() == words@.len());
        if words.len() > 3 {
            assert(text::views(words@)[3] == words@[3]@);
            match number::read_unsigned(words[3].as_slice(), u64::MAX) {
                Some(kib) => {
                    return Some(kib / 1024);
                },
                None => {},
            }
        }
        i = i + 1;
    }
    None
}

/// The bytes received and sent that a line of the network listing says, if it says both:
/// the first and the ninth word behind the colon.
pub open spec fn line_traffic(line: Seq<char>) -> Option<(nat, nat)> {
    match text::split_once(line, ':') {
        Some((_, values)) => {
            let fields = text::words(values);
            if fields.len() >= 9 {
                match (
                    number::parse_unsigned(fields[0], u64::MAX as nat),
                    number::parse_unsigned(fields[8], u64::MAX as nat),
                ) {
                    (Some(rx), Some(tx)) => Some((rx, tx)),
                    _ => None,
                }
            } else {
                None
            }
        },
        None => None,
    }
}

/// The lines that say bytes, as pairs.
pub open spec fn traffic(lines: Seq<Seq<char>>) -> Seq<(nat, nat)>
    decreases lines.len(),
{
    if lines.len() == 0 {
        Seq::empty()
    } else {
        match line_traffic(lines.last()) {
            Some(pair) => traffic(lines.drop_last()).push(pair),
            None => traffic(lines.drop_last()),
        }
    }
}

/// The sum of the first parts and the sum of the second parts.
pub open spec fn traffic_sums(pairs: Seq<(nat, nat)>) -> (nat, nat)
    decreases pairs.len(),
{
    if pairs.len() == 0 {
        (0, 0)
    } else {
        let earlier = traffic_sums(pairs.drop_last());
        (earlier.0 + pairs.last().0, earlier.1 + pairs.last().1)
    }
}

/// A sum that stops at the largest 64-bit number.
pub open spec fn saturated(n: nat) -> nat {
    if n > u64::MAX {
        u64::MAX as nat
    } else {
        n
    }
}

/// The bytes received and sent by all devices of the network listing, which has two
/// heading lines. None where another line has no colon, or no line says bytes.
pub open spec fn network_traffic(lines: Seq<Seq<char>>) -> Option<(nat, nat)> {
    let rows = lines.skip(2);
    let pairs = traffic(rows);
    let sums = traffic_sums(pairs);
    if lines.len() <= 2 || exists|i: int|
        0 <= i < rows.len() && text::split_once(#[trigger] rows[i], ':') is None {
        None
    } else if pairs.len() == 0 {
        None
    } else {
        Some((saturated(sums.0), saturated(sums.1)))
    }
}

fn read_line_traffic(values: &[char]) -> (pair: Option<(u64, u64)>)
    ensures
        ({
            let fields = text::words(values@);
            match pair {
                Some((rx, tx)) => fields.len() >= 9 && number::parse_unsigned(
                    fields[0],
                    u64::MAX as nat,
                ) == Some(rx as nat) && number::parse_unsigned(fields[8], u64::MAX as nat) == Some(
                    tx as nat,
                ),
                None => fields.len() < 9 || number::parse_unsigned(
                    fields[0],
                    u64::MAX as nat,
                ) is None || number::parse_unsigned(fields[8], u64::MAX as nat) is None,
            }
        }),
{
    let fields = text::split_words(values);
    assert(text::views(fields@).len() == fields@.len());
    if fields.len() <= 8 {
        return None;
    }
    assert(text::views(fields@)[0] == fields@[0]@);
    assert(text::views(fields@)[8] == fields@[8]@);
    let rx = number::read_unsigned(fields[0].as_slice(), u64::MAX);
    let tx = number::read_unsigned(fields[8].as_slice(), u64::MAX);
    match (rx, tx) {
        (Some(rx), Some(tx)) => Some((rx, tx)),
        _ => None,
    }
}

/// The bytes received and sent by all devices of the network listing.
pub fn parse_proc_net_dev(listing: &str) -> (bytes: Option<(u64, u64)>)
    ensures
        match bytes {
            Some((rx, tx)) => network_traffic(text::lines(listing@)) == Some((rx as nat, tx as nat)),
            None => network_traffic(text::lines(listing@)) is None,
        },
{
    let lines = text::split_lines(text::chars_of(listing).as_slice());
    let ghost all = text::views(lines@);
    let ghost rows = all.skip(2);
    let mut rx: u64 = 0;
    let mut tx: u64 = 0;
    let mut found: bool = false;
    if lines.len() <= 2 {
        return None;
    }
    assert(traffic(rows.take(0)) =~= Seq::<(nat, nat)>::empty());
    for i in 2..lines.len()
        invariant
            all == text::views(lines@),
            all == text::lines(listing@),
            rows == all.skip(2),
            lines@.len() > 2,
            forall|j: int| 0 <= j < i - 2 ==> text::split_once(#[trigger] rows[j], ':') is Some,
            found == (traffic(rows.take(i - 2)).len() > 0),
            rx == saturated(traffic_sums(traffic(rows.take(i - 2))).0),
            tx == saturated(traffic_sums(traffic(rows.take(i - 2))).1),
    {
        let ghost pairs = traffic(rows.take(i - 2));
        proof {
            assert(rows[i - 2] == lines@[i as int]@);
            assert(rows.take(i - 1).drop_last() =~= rows.take(i - 2));
            assert(rows.take(i - 1).last() == rows[i - 2]);
        }
        match text::split_at_char(lines[i].as_slice(), ':') {
            Some((_, values)) => {
                match read_line_traffic(values) {
                    Some((line_rx, line_tx)) => {
                        assert(pairs.push((line_rx as nat, line_tx as nat)).drop_last() =~= pairs);
                        rx = rx.saturating_add(line_rx);
                        tx = tx.saturating_add(line_tx);
                        found = true;
                    },
                    None => {},
                }
            },
            None => {
                return None;
            },
        }
    }
    assert(rows.take(lines@.len() - 2) =~= rows);
    if found {
        Some((rx, tx))
    } else {
        None
    }
}

/// What the graphics device says of itself.
#[derive(Debug, Clone, Default, PartialEq, Eq)]
pub struct GpuTelemetry {
    pub name: String,
    pub total_vram_mib: u64,
    pub used_vram_mib: u64,
    pub free_vram_mib: u64,
    pub gpu_util_percent: u32,
    pub mem_util_percent: u32,
    pub temperature_c: u32,
    /// A fraction, as the device writes it, if it writes one.
    pub power_watts: Option<String>,
}

/// What a `GpuTelemetry` says, with texts as character sequences.
pub struct GpuSpec {
    pub name: Seq<char>,
    pub total_vram_mib: nat,
    pub used_vram_mib: nat,
    pub free_vram_mib: nat,
    pub gpu_util_percent: nat,
    pub mem_util_percent: nat,
    pub temperature_c: nat,
    pub power_watts: Option<Seq<char>>,
}

impl View for GpuTelemetry {
    type V = GpuSpec;

    open spec fn view(&self) -> GpuSpec {
        GpuSpec {
            name: self.name@,
            total_vram_mib: self.total_vram_mib as nat,
            used_vram_mib: self.used_vram_mib as nat,
            free_vram_mib: self.free_vram_mib as nat,
            gpu_util_percent: self.gpu_util_percent as nat,
            mem_util_percent: self.mem_util_percent as nat,
            temperature_c: self.temperature_c as nat,
            power_watts: crate::swap_yaml::text_of(self.power_watts),
        }
    }
}

/// The number that `s` spells, or zero.
pub open spec fn number_or_zero(s: Seq<char>, max: nat) -> nat {
    match number::parse_unsigned(s, max) {
        Some(n) => n,
        None => 0,
    }
}

/// The device that a line of eight fields describes. A line with neither a name nor a
/// memory size describes none.
pub open spec fn gpu_of_line(line: Seq<char>) -> Option<GpuSpec> {
    let fields = text::split(line, ',').map_values(|field: Seq<char>| text::trim(field));
    if fields.len() >= 8 {
        let gpu = GpuSpec {
            name: fields[0],
            total_vram_mib: number_or_zero(fields[1], u64::MAX as nat),
            used_vram_mib: number_or_zero(fields[2], u64::MAX as nat),
            free_vram_mib: number_or_zero(fields[3], u64::MAX as nat),
            gpu_util_percent: number_or_zero(fields[4], u32::MAX as nat),
            mem_util_percent: number_or_zero(fields[5], u32::MAX as nat),
            temperature_c: number_or_zero(fields[6], u32::MAX as nat),
            power_watts: if is_fraction(fields[7]) {
                Some(fields[7])
            } else {
                None
            },
        };
        if gpu.total_vram_mib > 0 || gpu.name.len() > 0 {
            Some(gpu)
        } else {
            None
        }
    } else {
        None
    }
}

/// The device on the first line, from `from` on, that describes one.
pub open spec fn gpu_from(lines: Seq<Seq<char>>, from: int) -> Option<GpuSpec>
    decreases lines.len() - from,
{
    if from < 0 || from >= lines.len() {
        None
    } else if gpu_of_line(lines[from]) is Some {
        gpu_of_line(lines[from])
    } else {
        gpu_from(lines, from + 1)
    }
}

fn read_or_zero(s: &[char], max: u64) -> (n: u64)
    ensures
        n == number_or_zero(s@, max as nat),
        n <= max,
{
    match number::read_unsigned(s, max) {
        Some(n) => n,
        None => 0,
    }
}

fn read_gpu_line(line: &[char]) -> (gpu: Option<GpuTelemetry>)
    ensures
        match gpu {
            Some(g) => gpu_of_line(line@) == Some(g@),
            None => gpu_of_line(line@) is None,
        },
{
    let fields = text::split_on(line, ',');
    let ghost all = text::split(line@, ',').map_values(|field: Seq<char>| text::trim(field));
    assert(text::views(fields@).len() == fields@.len());
    if fields.len() <= 7 {
        return None;
    }
    assert forall|i: int| 0 <= i < 8 implies #[trigger] all[i] == text::trim(fields@[i]@) by {
        assert(text::views(fields@)[i] == fields@[i]@);
    }
    let name = text::trimmed(fields[0].as_slice());
    let total_vram_mib: u64 = read_or_zero(text::trimmed(fields[1].as_slice()), u64::MAX);
    if total_vram_mib == 0 && name.len() == 0 {
        return None;
    }
    let power = text::trimmed(fields[7].as_slice());
    let gpu = GpuTelemetry {
        name: text::string_of(name),
        total_vram_mib,
        used_vram_mib: read_or_zero(text::trimmed(fields[2].as_slice()), u64::MAX),
        free_vram_mib: read_or_zero(text::trimmed(fields[3].as_slice()), u64::MAX),
        gpu_util_percent: read_or_zero(text::trimmed(fields[4].as_slice()), u32::MAX as u64) as u32,
        mem_util_percent: read_or_zero(text::trimmed(fields[5].as_slice()), u32::MAX as u64) as u32,
        temperature_c: read_or_zero(text::trimmed(fields[6].as_slice()), u32::MAX as u64) as u32,
        power_watts: if reads_as_fraction(power) {
            Some(text::string_of(power))
        } else {
            None
        },
    };
    Some(gpu)
}

/// The first device of a listing.
pub fn parse_nvidia_smi_gpu_query(output: &str) -> (gpu: Option<GpuTelemetry>)
    ensures
        match gpu {
            Some(g) => gpu_from(text::lines(output@), 0) == Some(g@),
            None => gpu_from(text::lines(output@), 0) is None,
        },
{
    let lines = text::split_lines(text::chars_of(output).as_slice());
    let ghost all = text::views(lines@);
    let mut i: usize = 0;
    while i < lines.len()
        invariant
            i <= lines@.len(),
            all == text::views(lines@),
            all == text::lines(output@),
            gpu_from(all, 0) == gpu_from(all, i as int),
        decreases lines@.len() - i,
    {
        assert(all[i as int] == lines@[i as int]@);
        match read_gpu_line(lines[i].as_slice()) {
            Some(gpu) => {
                return Some(gpu);
            },
            None => {},
        }
        i = i + 1;
    }
    None
}

/// Memory and swap space of the machine.
#[derive(Debug, Clone, Default, PartialEq, Eq)]
pub struct SystemMemoryTelemetry {
    pub total_ram_mib: u64,
    pub available_ram_mib: u64,
    pub used_ram_mib: u64,
    pub total_swap_mib: u64,
    pub free_swap_mib: u64,
    pub used_swap_mib: u64,
}

/// The number that a line gives for a key: its first word behind the colon, or zero.
pub open spec fn keyed_number(line: Seq<char>, key: Seq<char>) -> Option<nat> {
    match text::split_once(line, ':') {
        Some((name, value)) => if text::trim(name) == key {
            let words = text::words(value);
            if words.len() > 0 {
                Some(number_or_zero(words[0], u64::MAX as nat))
            } else {
                Some(0)
            }
        } else {
            None
        },
        None => None,
    }
}

/// The number that the last line with a key gives for it, or zero.
pub open spec fn last_keyed(lines: Seq<Seq<char>>, key: Seq<char>) -> nat
    decreases lines.len(),
{
    if lines.len() == 0 {
        0
    } else {
        match keyed_number(lines.last(), key) {
            Some(n) => n,
            None => last_keyed(lines.drop_last(), key),
        }
    }
}

/// What is in use of a total, both in KiB, as a difference of whole MiB.
pub open spec fn used_mib(total: nat, left: nat) -> nat {
    if total / 1024 >= left / 1024 {
        (total / 1024 - left / 1024) as nat
    } else {
        0
    }
}

fn read_keyed(line: &[char], key: &str) -> (n: Option<u64>)
    ensures
        match n {
            Some(v) => keyed_number(line@, key@) == Some(v as nat),
            None => keyed_number(line@, key@) is None,
        },
{
    match text::split_at_char(line, ':') {
        Some((name, value)) => {
            if !text::is_text(text::trimmed(name), key) {
                return None;
            }
            let words = text::split_words(value);
            assert(text::views(words@).len() == words@.len());
            if words.len() > 0 {
                assert(text::views(words@)[0] == words@[0]@);
                Some(read_or_zero(words[0].as_slice(), u64::MAX))
            } else {
                Some(0)
            }
        },
        None => None,
    }
}

fn read_last_keyed(lines: &Vec<Vec<char>>, key: &str) -> (n: u64)
    ensures
        n == last_keyed(text::views(lines@), key@),
{
    let ghost all = text::views(lines@);
    let mut i: usize = lines.len();
    assert(all.take(i as int) =~= all);
    while i > 0
        invariant
            i <= lines@.len(),
            all == text::views(lines@),
            last_keyed(all, key@) == last_keyed(all.take(i as int), key@),
        decreases i,
    {
        proof {
            assert(all.take(i as int).last() == lines@[i - 1]@);
            assert(all.take(i as int).drop_last() =~= all.take(i - 1));
        }
        match read_keyed(lines[i - 1].as_slice(), key) {
            Some(n) => {
                return n;
            },
            None => {},
        }
        i = i - 1;
    }
    0
}

/// Whether this is the memory and the swap space that the lines of a listing say; none
/// where they say no total.
pub open spec fn is_memory_on(
    lines: Seq<Seq<char>>,
    memory: Option<SystemMemoryTelemetry>,
) -> bool {
    let total = last_keyed(lines, "MemTotal"@);
    let available = last_keyed(lines, "MemAvailable"@);
    let total_swap = last_keyed(lines, "SwapTotal"@);
    let free_swap = last_keyed(lines, "SwapFree"@);
    match memory {
        Some(m) => total > 0 && m.total_ram_mib == total / 1024 && m.available_ram_mib == available
            / 1024 && m.used_ram_mib == used_mib(total, available) && m.total_swap_mib == total_swap
            / 1024 && m.free_swap_mib == free_swap / 1024 && m.used_swap_mib == used_mib(
            total_swap,
            free_swap,
        ),
        None => total == 0,
    }
}

/// Memory and swap space out of the listing of the kernel. None where it says no total.
pub fn parse_proc_meminfo(listing: &str) -> (memory: Option<SystemMemoryTelemetry>)
    ensures
        is_memory_on(text::lines(listing@), memory),
{
    let lines = text::split_lines(text::chars_of(listing).as_slice());
    let total: u64 = read_last_keyed(&lines, "MemTotal");
    if total == 0 {
        return None;
    }
    let total_ram_mib: u64 = total / 1024;
    let available_ram_mib: u64 = read_last_keyed(&lines, "MemAvailable") / 1024;
    let total_swap_mib: u64 = read_last_keyed(&lines, "SwapTotal") / 1024;
    let free_swap_mib: u64 = read_last_keyed(&lines, "SwapFree") / 1024;
    Some(
        SystemMemoryTelemetry {
            total_ram_mib,
            available_ram_mib,
            used_ram_mib: total_ram_mib.saturating_sub(available_ram_mib),
            total_swap_mib,
            free_swap_mib,
            used_swap_mib: total_swap_mib.saturating_sub(free_swap_mib),
        },
    )
}

/// The number on the first line, from `from` on, with the key `read_bytes`, if it is one.
pub open spec fn read_bytes_from(lines: Seq<Seq<char>>, from: int) -> Option<nat>
    decreases lines.len() - from,
{
    if from < 0 || from >= lines.len() {
        None
    } else {
        match text::split_once(lines[from], ':') {
            Some((key, value)) => if text::trim(key) == "read_bytes"@ {
                number::parse_unsigned(text::trim(value), u64::MAX as nat)
            } else {
                read_bytes_from(lines, from + 1)
            },
            None => read_bytes_from(lines, from + 1),
        }
    }
}

/// The bytes that a process has read from storage, out of the counters of the kernel.
pub fn parse_proc_io(counters: &str) -> (bytes: Option<u64>)
    ensures
        match bytes {
            Some(n) => read_bytes_from(text::lines(counters@), 0) == Some(n as nat),
            None => read_bytes_from(text::lines(counters@), 0) is None,
        },
{
    let lines = text::split_lines(text::chars_of(counters).as_slice());
    let ghost all = text::views(lines@);
    let mut i: usize = 0;
    while i < lines.len()
        invariant
            i <= lines@.len(),
            all == text::views(lines@),
            all == text::lines(counters@),
            read_bytes_from(all, 0) == read_bytes_from(all, i as int),
        decreases lines@.len() - i,
    {
        assert(all[i as int] == lines@[i as int]@);
        match text::split_at_char(lines[i].as_slice(), ':') {
            Some((key, value)) => {
                if text::is_text(text::trimmed(key), "read_bytes") {
                    return number::read_unsigned(text::trimmed(value), u64::MAX);
                }
            },
            None => {},
        }
        i = i + 1;
    }
    None
}

/// What a server reads from storage.
#[derive(Debug, Clone, Default, PartialEq, Eq)]
pub struct ServerIoTelemetry {
    pub pid: u32,
    pub read_bytes: u64,
    /// What was read since the count before, where there is one.
    pub read_delta_bytes: Option<u64>,
}

/// Whether this is what the lines of its counters say of a server, where the count before
/// was `prev_read_bytes`.
pub open spec fn is_io_on(
    lines: Seq<Seq<char>>,
    pid: u32,
    prev_read_bytes: Option<u64>,
    io: Option<ServerIoTelemetry>,
) -> bool {
    match read_bytes_from(lines, 0) {
        Some(n) => match io {
            Some(t) => t.pid == pid && t.read_bytes == n && t.read_delta_bytes == (
            match prev_read_bytes {
                Some(prev) => Some(
                    if n >= prev {
                        (n - prev) as u64
                    } else {
                        0
                    },
                ),
                None => None,
            }),
            None => false,
        },
        None => io is None,
    }
}

/// What a server has read, out of the counters of the kernel, and what it has read since
/// the count `prev_read_bytes`. A count below the one before gives no bytes.
pub fn server_io(pid: u32, counters: &str, prev_read_bytes: Option<u64>) -> (io: Option<
    ServerIoTelemetry,
>)
    ensures
        is_io_on(text::lines(counters@), pid, prev_read_bytes, io),
{
    match parse_proc_io(counters) {
        Some(read_bytes) => {
            let read_delta_bytes: Option<u64> = match prev_read_bytes {
                Some(prev) => Some(read_bytes.saturating_sub(prev)),
                None => None,
            };
            Some(ServerIoTelemetry { pid, read_bytes, read_delta_bytes })
        },
        None => None,
    }
}

/// All that is shown of the machine at one time.
#[derive(Debug, Clone, Default, PartialEq, Eq)]
pub struct SystemTelemetrySnapshot {
    pub resource_summary: String,
    pub gpu: Option<GpuTelemetry>,
    pub memory: Option<SystemMemoryTelemetry>,
    pub server_io: Option<ServerIoTelemetry>,
}

/// What a selection of processes uses, and what is left.
#[derive(Debug, Clone, PartialEq, Eq)]
pub struct ResourceSnapshot {
    pub process_count: usize,
    /// A fraction with one decimal.
    pub cpu_percent: String,
    pub rss_kib: u64,
    /// The memory in MiB, a fraction with one decimal.
    pub ram_mib: String,
    pub gpu_memory_mib: Option<u64>,
    pub disk_free_mib: Option<u64>,
    pub network_rx_bytes: Option<u64>,
    pub network_tx_bytes: Option<u64>,
}

/// A size in MiB, or that there is none.
pub open spec fn mib_text(size: Option<u64>) -> Seq<char> {
    match size {
        Some(n) => number::decimal(n as nat) + " MiB"@,
        None => "n/a"@,
    }
}

/// The bytes received and sent, or that they are not known.
pub open spec fn network_text(rx: Option<u64>, tx: Option<u64>) -> Seq<char> {
    match (rx, tx) {
        (Some(rx), Some(tx)) => "rx="@ + number::decimal(rx as nat) + "B tx="@ + number::decimal(
            tx as nat,
        ) + "B"@,
        _ => "n/a"@,
    }
}

/// The time that has passed, in minutes and seconds, where it is known.
pub open spec fn elapsed_text(seconds: Option<u64>) -> Seq<char> {
    match seconds {
        Some(n) => " elapsed="@ + number::padded((n / 60) as nat, 2) + ":"@ + number::padded(
            (n % 60) as nat,
            2,
        ),
        None => Seq::empty(),
    }
}

impl ResourceSnapshot {
    /// The snapshot as one line.
    pub open spec fn line(self, subject: Seq<char>, elapsed_seconds: Option<u64>) -> Seq<char> {
        "Resources: "@ + subject + "="@ + number::decimal(self.process_count as nat) + " cpu="@
            + self.cpu_percent@ + "% ram="@ + self.ram_mib@ + " MiB gpu="@ + mib_text(
            self.gpu_memory_mib,
        ) + " disk="@ + mib_text(self.disk_free_mib) + " net="@ + network_text(
            self.network_rx_bytes,
            self.network_tx_bytes,
        ) + elapsed_text(elapsed_seconds)
    }

    pub fn render(&self, subject: &str, elapsed_seconds: Option<u64>) -> (line: String)
        ensures
            line@ == self.line(subject@, elapsed_seconds),
    {
        let mut line = "Resources: ".to_owned();
        line.append(subject);
        line.append("=");
        line.append(decimal_string(self.process_count as u64).as_str());
        line.append(" cpu=");
        line.append(self.cpu_percent.as_str());
        line.append("% ram=");
        line.append(self.ram_mib.as_str());
        line.append(" MiB gpu=");
        line.append(mib_string(self.gpu_memory_mib).as_str());
        line.append(" disk=");
        line.append(mib_string(self.disk_free_mib).as_str());
        line.append(" net=");
        match (self.network_rx_bytes, self.network_tx_bytes) {
            (Some(rx), Some(tx)) => {
                let mut network = "rx=".to_owned();
                network.append(decimal_string(rx).as_str());
                network.append("B tx=");
                network.append(decimal_string(tx).as_str());
                network.append("B");
                line.append(network.as_str());
            },
            _ => {
                line.append("n/a");
            },
        }
        let ghost before = line@;
        match elapsed_seconds {
            Some(seconds) => {
                let mut elapsed = " elapsed=".to_owned();
                elapsed.append(padded_string(seconds / 60).as_str());
                elapsed.append(":");
                elapsed.append(padded_string(seconds % 60).as_str());
                line.append(elapsed.as_str());
            },
            None => {
                assert(before + Seq::<char>::empty() =~= before);
            },
        }
        line
    }
}

fn decimal_string(n: u64) -> (s: String)
    ensures
        s@ == number::decimal(n as nat),
{
    text::string_of(number::write_unsigned(n as u128).as_slice())
}

fn padded_string(n: u64) -> (s: String)
    ensures
        s@ == number::padded(n as nat, 2),
{
    text::string_of(number::write_padded(n as u128, 2).as_slice())
}

fn mib_string(size: Option<u64>) -> (s: String)
    ensures
        s@ == mib_text(size),
{
    match size {
        Some(n) => {
            let mut s = decimal_string(n);
            s.append(" MiB");
            s
        },
        None => "n/a".to_owned(),
    }
}

} // verus!
